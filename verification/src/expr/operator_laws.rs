//! What the operators of the expression language do.

use vstd::prelude::*;
use vstd::arithmetic::power::pow;
use crate::assoc::{get, holds, lemma_pos};
use crate::expr::ast::{AstView, BinOp, CompareOp};
use crate::expr::eval::value_of;
use crate::expr::number::{answer, float_of, float_unit, floor_div, floor_mod, law_floor_division, nearest_float, rounded, Fail, FloatAnswerView, FloatOp, FloatQueryView, Floats, Outcome};
use crate::expr::ops::{is_true, law_slices_stay_inside, repeated, slice_bound, sliced, step_count};
use crate::text::{dec, lemma_text_le_antisym, lemma_text_le_total, occurs, stands_at, text_le};
use crate::value::{same_value, ValueView, VarsView};

verus! {

/// `l op r`.
pub open spec fn bin(op: BinOp, l: AstView, r: AstView) -> AstView {
    AstView::Bin(op, Box::new(l), Box::new(r))
}

/// `l op r`, compared.
pub open spec fn comparison(l: AstView, op: CompareOp, r: AstView) -> AstView {
    AstView::Compare(Box::new(l), op, Box::new(r))
}

/// An integer of 64 bits is itself; any other integer overflows.
pub open spec fn fits(o: Outcome, i: int) -> bool {
    if i64::MIN <= i <= i64::MAX {
        o == Ok::<ValueView, Fail>(ValueView::Int(i))
    } else {
        o == Err::<ValueView, Fail>(Fail::Overflow)
    }
}

// ---------------------------------------------------------------------------------------
// Arithmetic
// ---------------------------------------------------------------------------------------

/// Sums, differences, products and powers of integers are exact, where 64 bits hold them.
/// Floor division and remainder belong together: the quotient times the divisor and the
/// remainder make the dividend, and the remainder has the sign of the divisor and is smaller.
/// Nothing can be divided by 0.
pub proof fn law_integer_arithmetic(l: AstView, r: AstView, a: int, b: int, vars: VarsView, fl: Floats)
    requires
        value_of(l, vars, fl) == Ok::<ValueView, Fail>(ValueView::Int(a)),
        value_of(r, vars, fl) == Ok::<ValueView, Fail>(ValueView::Int(b)),
        i64::MIN <= a <= i64::MAX,
        i64::MIN <= b <= i64::MAX,
    ensures
        fits(value_of(bin(BinOp::Add, l, r), vars, fl), a + b),
        fits(value_of(bin(BinOp::Sub, l, r), vars, fl), a - b),
        fits(value_of(bin(BinOp::Mul, l, r), vars, fl), a * b),
        b >= 0 ==> fits(value_of(bin(BinOp::Pow, l, r), vars, fl), pow(a, b as nat)),
        b != 0 && !(a == i64::MIN && b == -1) ==> {
            let q = value_of(bin(BinOp::FloorDiv, l, r), vars, fl);
            let m = value_of(bin(BinOp::Mod, l, r), vars, fl);
            &&& q is Ok && q->Ok_0 is Int && m is Ok && m->Ok_0 is Int
            &&& q->Ok_0->Int_0 * b + m->Ok_0->Int_0 == a
            &&& if b > 0 {
                0 <= m->Ok_0->Int_0 < b
            } else {
                b < m->Ok_0->Int_0 <= 0
            }
        },
        b == 0 ==> value_of(bin(BinOp::FloorDiv, l, r), vars, fl) matches Err(Fail::Runtime(_)),
        b == 0 ==> value_of(bin(BinOp::Mod, l, r), vars, fl) matches Err(Fail::Runtime(_)),
        b == 0 ==> value_of(bin(BinOp::Div, l, r), vars, fl) matches Err(Fail::Runtime(_)),
{
    if b != 0 && !(a == i64::MIN && b == -1) {
        law_floor_division(a, b);
        lemma_quotient_fits(a, b);
        let q = floor_div(a, b);
        assert(b * q == q * b) by (nonlinear_arith);
    }
}

proof fn lemma_quotient_fits(a: int, b: int)
    requires
        i64::MIN <= a <= i64::MAX,
        i64::MIN <= b <= i64::MAX,
        b != 0,
        !(a == i64::MIN && b == -1),
    ensures
        i64::MIN <= floor_div(a, b) <= i64::MAX,
        i64::MIN <= floor_mod(a, b) <= i64::MAX,
{
    law_floor_division(a, b);
    let q = floor_div(a, b);
    let m = floor_mod(a, b);
    assert(b * q + m == a);
    if q > i64::MAX {
        if b > 0 {
            assert(b * q >= q) by (nonlinear_arith)
                requires
                    b >= 1,
                    q >= 0,
            ;
        } else if b == -1 {
            assert(b * q == -q) by (nonlinear_arith)
                requires
                    b == -1,
            ;
        } else {
            assert(b * q <= -2 * q) by (nonlinear_arith)
                requires
                    b <= -2,
                    q >= 0,
            ;
        }
    }
    if q < i64::MIN {
        if b > 0 {
            assert(b * q <= q) by (nonlinear_arith)
                requires
                    b >= 1,
                    q <= 0,
            ;
            assert(b * q <= q && m < b);
            if b == 1 {
                assert(b * q == q) by (nonlinear_arith)
                    requires
                        b == 1,
                ;
            } else {
                assert(b * q + b <= q + 1) by (nonlinear_arith)
                    requires
                        b >= 1,
                        q <= -1,
                ;
            }
        } else {
            assert(b * q >= -q) by (nonlinear_arith)
                requires
                    b <= -1,
                    q <= 0,
            ;
            assert(b * q + b >= -q - 1) by (nonlinear_arith)
                requires
                    b <= -1,
                    q <= -1,
            ;
        }
    }
}

/// An operator that is asked of floats.
pub open spec fn asked(op: BinOp) -> Option<FloatOp> {
    match op {
        BinOp::Add => Some(FloatOp::Add),
        BinOp::Sub => Some(FloatOp::Sub),
        BinOp::Mul => Some(FloatOp::Mul),
        BinOp::Div => Some(FloatOp::Div),
        BinOp::FloorDiv => Some(FloatOp::FloorDiv),
        BinOp::Mod => Some(FloatOp::Mod),
        BinOp::Pow => Some(FloatOp::Pow),
        BinOp::Concat => None,
    }
}

/// Arithmetic on floats is what the table answers: for the operator as it is written, and
/// for the operands in their order. Without an answer the question is what comes back.
pub proof fn law_float_arithmetic(
    op: BinOp,
    l: AstView,
    r: AstView,
    a: Seq<char>,
    b: Seq<char>,
    vars: VarsView,
    fl: Floats,
)
    requires
        value_of(l, vars, fl) == Ok::<ValueView, Fail>(ValueView::Float(a)),
        value_of(r, vars, fl) == Ok::<ValueView, Fail>(ValueView::Float(b)),
        b != "0.0"@,
        b != "-0.0"@,
        asked(op) is Some,
    ensures
        ({
            let q = FloatQueryView { op: asked(op).unwrap(), left: a, right: b };
            match answer(fl, q) {
                None => value_of(bin(op, l, r), vars, fl) == Err::<ValueView, Fail>(
                    Fail::NeedFloat(q),
                ),
                Some(FloatAnswerView::Finite(t)) => value_of(bin(op, l, r), vars, fl) == Ok::<
                    ValueView,
                    Fail,
                >(ValueView::Float(t)),
                Some(_) => value_of(bin(op, l, r), vars, fl) matches Err(Fail::Runtime(_)),
            }
        }),
{
}

/// The quotient of two integers is a float: what the table answers for the floats next to
/// them.
pub proof fn law_division_gives_floats(l: AstView, r: AstView, a: int, b: int, vars: VarsView, fl: Floats)
    requires
        value_of(l, vars, fl) == Ok::<ValueView, Fail>(ValueView::Int(a)),
        value_of(r, vars, fl) == Ok::<ValueView, Fail>(ValueView::Int(b)),
        i64::MIN <= a <= i64::MAX,
        i64::MIN <= b <= i64::MAX,
        b != 0,
    ensures
        ({
            let q = FloatQueryView { op: FloatOp::Div, left: float_of(a), right: float_of(b) };
            match answer(fl, q) {
                None => value_of(bin(BinOp::Div, l, r), vars, fl) == Err::<ValueView, Fail>(
                    Fail::NeedFloat(q),
                ),
                Some(FloatAnswerView::Finite(t)) => value_of(bin(BinOp::Div, l, r), vars, fl)
                    == Ok::<ValueView, Fail>(ValueView::Float(t)),
                Some(_) => value_of(bin(BinOp::Div, l, r), vars, fl) matches Err(Fail::Runtime(_)),
            }
        }),
{
}

/// The negative of an integer and the integer add up to 0; a float loses its sign or gets
/// one.
pub proof fn law_negation(e: AstView, vars: VarsView, fl: Floats)
    ensures
        ({
            let r = value_of(AstView::Neg(Box::new(e)), vars, fl);
            match value_of(e, vars, fl) {
                Ok(ValueView::Int(i)) => i64::MIN < i <= i64::MAX ==> r == Ok::<ValueView, Fail>(
                    ValueView::Int(0 - i),
                ),
                Ok(ValueView::Float(t)) => r matches Ok(ValueView::Float(u)) && (if t.len() > 0
                    && t[0] == '-' {
                    t == seq!['-'] + u
                } else {
                    u == seq!['-'] + t
                }),
                Ok(_) => r matches Err(Fail::Runtime(_)),
                Err(f) => r == Err::<ValueView, Fail>(f),
            }
        }),
{
    if let Ok(ValueView::Float(t)) = value_of(e, vars, fl) {
        if t.len() > 0 && t[0] == '-' {
            assert(t =~= seq!['-'] + t.drop_first());
        }
    }
}

// ---------------------------------------------------------------------------------------
// Texts and lists
// ---------------------------------------------------------------------------------------

/// `+` puts texts behind one another, and lists; `~` puts the texts of its operands behind
/// one another, integers in decimal; other operands that are no numbers fail.
pub proof fn law_concatenation(l: AstView, r: AstView, vars: VarsView, fl: Floats)
    ensures
        ({
            let sum = value_of(bin(BinOp::Add, l, r), vars, fl);
            let both = value_of(bin(BinOp::Concat, l, r), vars, fl);
            match (value_of(l, vars, fl), value_of(r, vars, fl)) {
                (Ok(ValueView::Text(a)), Ok(ValueView::Text(b))) => {
                    &&& sum == Ok::<ValueView, Fail>(ValueView::Text(a + b))
                    &&& both == Ok::<ValueView, Fail>(ValueView::Text(a + b))
                },
                (Ok(ValueView::List(a)), Ok(ValueView::List(b))) => {
                    &&& sum == Ok::<ValueView, Fail>(ValueView::List(a + b))
                    &&& both matches Err(Fail::Runtime(_))
                },
                (Ok(ValueView::Text(a)), Ok(ValueView::Int(i))) => {
                    &&& sum matches Err(Fail::Runtime(_))
                    &&& both == Ok::<ValueView, Fail>(ValueView::Text(a + dec(i)))
                },
                (Ok(ValueView::Int(i)), Ok(ValueView::Text(a))) => {
                    &&& sum matches Err(Fail::Runtime(_))
                    &&& both == Ok::<ValueView, Fail>(ValueView::Text(dec(i) + a))
                },
                (Ok(ValueView::Int(i)), Ok(ValueView::Int(j))) => both == Ok::<ValueView, Fail>(
                    ValueView::Text(dec(i) + dec(j)),
                ),
                (Ok(ValueView::Text(a)), Ok(ValueView::Bool(b))) => both == Ok::<ValueView, Fail>(
                    ValueView::Text(
                        a + (if b {
                            "True"@
                        } else {
                            "False"@
                        }),
                    ),
                ),
                (Ok(ValueView::Text(a)), Ok(ValueView::Null)) => both == Ok::<ValueView, Fail>(
                    ValueView::Text(a + "None"@),
                ),
                (Ok(ValueView::Dict(_)), Ok(_)) => sum is Err && both is Err,
                (Err(f), _) => sum == Err::<ValueView, Fail>(f) && both == sum,
                (Ok(_), Err(f)) => sum == Err::<ValueView, Fail>(f) && both == sum,
                _ => true,
            }
        }),
{
}

proof fn lemma_repeated<A>(s: Seq<A>, n: int, k: int)
    requires
        n >= 0,
        s.len() > 0,
        0 <= k < n * s.len(),
    ensures
        repeated(s, n).len() == n * s.len(),
        repeated(s, n)[k] == s[k % s.len() as int],
    decreases n,
{
    let w = s.len() as int;
    if n > 0 {
        assert(n * w == (n - 1) * w + w) by (nonlinear_arith);
        lemma_repeated_len(s, n - 1);
        if k < (n - 1) * w {
            lemma_repeated(s, n - 1, k);
        } else {
            let j = k - (n - 1) * w;
            assert(repeated(s, n)[k] == s[j]);
            assert(k % w == j) by (nonlinear_arith)
                requires
                    k == (n - 1) * w + j,
                    0 <= j < w,
            ;
        }
        lemma_repeated_len(s, n);
    } else {
        assert(0 * w == 0) by (nonlinear_arith);
    }
}

proof fn lemma_repeated_len<A>(s: Seq<A>, n: int)
    requires
        n >= 0,
    ensures
        repeated(s, n).len() == n * s.len(),
    decreases n,
{
    let w = s.len() as int;
    if n > 0 {
        lemma_repeated_len(s, n - 1);
        assert(n * w == (n - 1) * w + w) by (nonlinear_arith);
    } else {
        assert(0 * w == 0) by (nonlinear_arith);
    }
}

/// A text or a list times `n`, in either order, is `n` of them behind one another, and
/// nothing where `n` is not positive.
pub proof fn law_repetition(
    l: AstView,
    r: AstView,
    s: Seq<char>,
    a: Seq<ValueView>,
    n: int,
    k: int,
    vars: VarsView,
    fl: Floats,
)
    requires
        i64::MIN <= n <= i64::MAX,
        value_of(r, vars, fl) == Ok::<ValueView, Fail>(ValueView::Int(n)),
    ensures
        value_of(l, vars, fl) == Ok::<ValueView, Fail>(ValueView::Text(s)) ==> {
            let o = value_of(bin(BinOp::Mul, l, r), vars, fl);
            &&& o == value_of(bin(BinOp::Mul, r, l), vars, fl)
            &&& o is Ok && o->Ok_0 is Text
            &&& o->Ok_0->Text_0.len() == (if n > 0 {
                n * s.len()
            } else {
                0
            })
            &&& n > 0 && 0 <= k < n * s.len() ==> o->Ok_0->Text_0[k] == s[k % s.len() as int]
        },
        value_of(l, vars, fl) == Ok::<ValueView, Fail>(ValueView::List(a)) ==> {
            let o = value_of(bin(BinOp::Mul, l, r), vars, fl);
            &&& o == value_of(bin(BinOp::Mul, r, l), vars, fl)
            &&& o is Ok && o->Ok_0 is List
            &&& o->Ok_0->List_0.len() == (if n > 0 {
                n * a.len()
            } else {
                0
            })
            &&& n > 0 && 0 <= k < n * a.len() ==> o->Ok_0->List_0[k] == a[k % a.len() as int]
        },
{
    if n > 0 {
        lemma_repeated_len(s, n);
        lemma_repeated_len(a, n);
        if 0 <= k < n * s.len() {
            assert(s.len() > 0) by (nonlinear_arith)
                requires
                    0 <= k < n * s.len(),
            ;
            lemma_repeated(s, n, k);
        }
        if 0 <= k < n * a.len() {
            assert(a.len() > 0) by (nonlinear_arith)
                requires
                    0 <= k < n * a.len(),
            ;
            lemma_repeated(a, n, k);
        }
    }
}

// ---------------------------------------------------------------------------------------
// Truth
// ---------------------------------------------------------------------------------------

/// What is none, false, 0 or empty is not true; everything else is.
pub proof fn law_truth(v: ValueView)
    ensures
        is_true(v) <==> v != ValueView::Null && v != ValueView::Bool(false) && v != ValueView::Int(0)
            && v != ValueView::Float("0.0"@) && v != ValueView::Float("-0.0"@) && !(v is Text
            && v->Text_0.len() == 0) && !(v is List && v->List_0.len() == 0) && !(v is Dict
            && v->Dict_0.len() == 0),
{
}

/// `and`, `or` and `not` of values, by their truth; what is undefined is not true.
pub proof fn law_logic(l: AstView, r: AstView, vars: VarsView, fl: Floats)
    ensures
        ({
            let both = value_of(AstView::And(Box::new(l), Box::new(r)), vars, fl);
            let any = value_of(AstView::Or(Box::new(l), Box::new(r)), vars, fl);
            let neither = value_of(AstView::Not(Box::new(l)), vars, fl);
            match (value_of(l, vars, fl), value_of(r, vars, fl)) {
                (Ok(a), Ok(b)) => {
                    &&& both == Ok::<ValueView, Fail>(ValueView::Bool(is_true(a) && is_true(b)))
                    &&& any == Ok::<ValueView, Fail>(ValueView::Bool(is_true(a) || is_true(b)))
                    &&& neither == Ok::<ValueView, Fail>(ValueView::Bool(!is_true(a)))
                },
                (Err(Fail::Undefined), Ok(b)) => {
                    &&& both == Ok::<ValueView, Fail>(ValueView::Bool(false))
                    &&& any == Ok::<ValueView, Fail>(ValueView::Bool(is_true(b)))
                    &&& neither == Ok::<ValueView, Fail>(ValueView::Bool(true))
                },
                (Ok(a), Err(Fail::Undefined)) => {
                    &&& both == Ok::<ValueView, Fail>(ValueView::Bool(false))
                    &&& any == Ok::<ValueView, Fail>(ValueView::Bool(is_true(a)))
                },
                (Ok(a), Err(f)) => {
                    &&& !is_true(a) ==> both == Ok::<ValueView, Fail>(ValueView::Bool(false))
                    &&& is_true(a) ==> any == Ok::<ValueView, Fail>(ValueView::Bool(true))
                },
                _ => true,
            }
        }),
{
}

/// `is defined` and `is undefined` say whether there is a value, and are opposites.
pub proof fn law_defined(e: AstView, vars: VarsView, fl: Floats)
    ensures
        ({
            let yes = value_of(AstView::Defined(Box::new(e), false), vars, fl);
            let no = value_of(AstView::Defined(Box::new(e), true), vars, fl);
            match value_of(e, vars, fl) {
                Ok(_) => yes == Ok::<ValueView, Fail>(ValueView::Bool(true)) && no == Ok::<
                    ValueView,
                    Fail,
                >(ValueView::Bool(false)),
                Err(Fail::Undefined) => yes == Ok::<ValueView, Fail>(ValueView::Bool(false)) && no
                    == Ok::<ValueView, Fail>(ValueView::Bool(true)),
                Err(_) => yes is Ok <==> no is Ok,
            }
        }),
{
}

/// `body if c else other` is the body where the condition is true, and the other where it is
/// not or is undefined.
pub proof fn law_conditional(c: AstView, b: AstView, o: AstView, vars: VarsView, fl: Floats)
    ensures
        ({
            let r = value_of(
                AstView::Cond(Box::new(c), Box::new(b), Some(Box::new(o))),
                vars,
                fl,
            );
            match value_of(c, vars, fl) {
                Ok(v) => r == (if is_true(v) {
                    value_of(b, vars, fl)
                } else {
                    value_of(o, vars, fl)
                }),
                Err(Fail::Undefined) => r == value_of(o, vars, fl),
                Err(f) => r == Err::<ValueView, Fail>(f),
            }
        }),
{
}

// ---------------------------------------------------------------------------------------
// Comparison
// ---------------------------------------------------------------------------------------

/// `==` and `!=` are opposites and symmetric; two scalars of the same kind are equal where
/// they are the same, and scalars of different kinds never are.
pub proof fn law_equality(l: AstView, r: AstView, vars: VarsView, fl: Floats)
    requires
        value_of(l, vars, fl) is Ok,
        value_of(r, vars, fl) is Ok,
    ensures
        ({
            let eq = value_of(comparison(l, CompareOp::Eq, r), vars, fl);
            let ne = value_of(comparison(l, CompareOp::Ne, r), vars, fl);
            &&& eq is Ok && eq->Ok_0 is Bool
            &&& ne == Ok::<ValueView, Fail>(ValueView::Bool(!eq->Ok_0->Bool_0))
            &&& match (value_of(l, vars, fl)->Ok_0, value_of(r, vars, fl)->Ok_0) {
                (ValueView::Int(a), ValueView::Int(b)) => eq->Ok_0->Bool_0 <==> a == b,
                (ValueView::Text(a), ValueView::Text(b)) => eq->Ok_0->Bool_0 <==> a == b,
                (ValueView::Bool(a), ValueView::Bool(b)) => eq->Ok_0->Bool_0 <==> a == b,
                (ValueView::Null, ValueView::Null) => eq->Ok_0->Bool_0,
                (ValueView::Float(a), ValueView::Float(b)) => a == b ==> eq->Ok_0->Bool_0,
                (ValueView::List(a), ValueView::List(b)) => {
                    &&& eq->Ok_0->Bool_0 ==> a.len() == b.len()
                    &&& eq->Ok_0->Bool_0 <==> a.len() == b.len() && forall|k: int|
                        0 <= k < a.len() ==> same_value(#[trigger] a[k], b[k])
                },
                (ValueView::Dict(a), ValueView::Dict(b)) => {
                    &&& eq->Ok_0->Bool_0 ==> a.len() == b.len() && forall|k: int|
                        0 <= k < a.len() ==> holds(b, (#[trigger] a[k]).0)
                },
                _ => !eq->Ok_0->Bool_0,
            }
        }),
{
}

/// Integers up to 2^53 are ordered as integers are.
pub proof fn law_integer_order(l: AstView, r: AstView, a: int, b: int, vars: VarsView, fl: Floats)
    requires
        value_of(l, vars, fl) == Ok::<ValueView, Fail>(ValueView::Int(a)),
        value_of(r, vars, fl) == Ok::<ValueView, Fail>(ValueView::Int(b)),
        -0x20_0000_0000_0000 < a < 0x20_0000_0000_0000,
        -0x20_0000_0000_0000 < b < 0x20_0000_0000_0000,
    ensures
        value_of(comparison(l, CompareOp::Lt, r), vars, fl) == Ok::<ValueView, Fail>(
            ValueView::Bool(a < b),
        ),
        value_of(comparison(l, CompareOp::Le, r), vars, fl) == Ok::<ValueView, Fail>(
            ValueView::Bool(a <= b),
        ),
        value_of(comparison(l, CompareOp::Gt, r), vars, fl) == Ok::<ValueView, Fail>(
            ValueView::Bool(a > b),
        ),
        value_of(comparison(l, CompareOp::Ge, r), vars, fl) == Ok::<ValueView, Fail>(
            ValueView::Bool(a >= b),
        ),
{
    lemma_exact(a);
    lemma_exact(b);
}

proof fn lemma_exact(i: int)
    requires
        -0x20_0000_0000_0000 < i < 0x20_0000_0000_0000,
    ensures
        nearest_float(i) == i,
{
    let m: nat = if i < 0 {
        (-i) as nat
    } else {
        i as nat
    };
    assert(float_unit(m) == 1);
    assert(rounded(m, 1) == m);
}

/// A power of two.
pub open spec fn is_power_of_two(u: nat) -> bool
    decreases u,
{
    u == 1 || (u > 1 && u % 2 == 0 && is_power_of_two(u / 2))
}

proof fn lemma_unit(m: nat)
    ensures
        is_power_of_two(float_unit(m)),
        float_unit(m) > 0,
        m / float_unit(m) < 0x20_0000_0000_0000,
        float_unit(m) > 1 ==> m / float_unit(m) >= 0x10_0000_0000_0000,
    decreases m,
{
    if m >= 0x20_0000_0000_0000 {
        let u = float_unit(m / 2);
        lemma_unit(m / 2);
        assert((2 * u) / 2 == u && (2 * u) % 2 == 0);
        vstd::arithmetic::div_mod::lemma_div_denominator(m as int, 2, u as int);
        assert(m / (2 * u) == (m / 2) / u);
        if u == 1 {
            assert((m / 2) / 1 == m / 2);
            assert(m / 2 >= 0x10_0000_0000_0000);
        }
    } else {
        assert(m / 1 == m);
    }
}

/// The float next to an integer: with its sign, a multiple of a power of two that leaves 53
/// bits, no more than half of that away; and where two are as near, the even one.
pub proof fn law_nearest_float(m: nat)
    ensures
        nearest_float(-(m as int)) == -nearest_float(m as int),
        ({
            let u = float_unit(m) as int;
            let r = nearest_float(m as int);
            &&& is_power_of_two(u as nat)
            &&& m as int / u < 0x20_0000_0000_0000
            &&& u > 1 ==> m as int / u >= 0x10_0000_0000_0000
            &&& exists|k: int| #[trigger] (k * u) == r && (2 * (r - m) == u || 2 * (m - r) == u ==> k
                % 2 == 0)
            &&& 2 * (r - m) <= u
            &&& 2 * (m - r) <= u
        }),
{
    lemma_unit(m);
    let u = float_unit(m);
    let (q, d) = (m / u, m % u);
    vstd::arithmetic::div_mod::lemma_fundamental_div_mod(m as int, u as int);
    assert(u * q == q * u) by (nonlinear_arith);
    assert(m == q * u + d);
    assert((q + 1) * u == q * u + u) by (nonlinear_arith);
    let k = if 2 * d > u || (2 * d == u && q % 2 == 1) {
        q + 1
    } else {
        q
    };
    assert(nearest_float(m as int) == k * u);
    assert(k as int * (u as int) == nearest_float(m as int));
    if m == 0 {
        assert(u == 1 && q == 0 && d == 0);
    }
}

/// Integers are ordered as the floats next to them are.
pub proof fn law_large_integer_order(
    l: AstView,
    r: AstView,
    a: int,
    b: int,
    vars: VarsView,
    fl: Floats,
)
    requires
        value_of(l, vars, fl) == Ok::<ValueView, Fail>(ValueView::Int(a)),
        value_of(r, vars, fl) == Ok::<ValueView, Fail>(ValueView::Int(b)),
    ensures
        value_of(comparison(l, CompareOp::Lt, r), vars, fl) == Ok::<ValueView, Fail>(
            ValueView::Bool(nearest_float(a) < nearest_float(b)),
        ),
        value_of(comparison(l, CompareOp::Le, r), vars, fl) == Ok::<ValueView, Fail>(
            ValueView::Bool(nearest_float(a) <= nearest_float(b)),
        ),
        value_of(comparison(l, CompareOp::Gt, r), vars, fl) == Ok::<ValueView, Fail>(
            ValueView::Bool(nearest_float(a) > nearest_float(b)),
        ),
        value_of(comparison(l, CompareOp::Ge, r), vars, fl) == Ok::<ValueView, Fail>(
            ValueView::Bool(nearest_float(a) >= nearest_float(b)),
        ),
{
}

/// The order of two numbers of which one is a float is what the table answers for them, an
/// integer taken for the float next to it.
pub proof fn law_float_order(
    l: AstView,
    r: AstView,
    x: ValueView,
    y: ValueView,
    vars: VarsView,
    fl: Floats,
)
    requires
        value_of(l, vars, fl) == Ok::<ValueView, Fail>(x),
        value_of(r, vars, fl) == Ok::<ValueView, Fail>(y),
        x is Float || y is Float,
        x is Float || x is Int,
        y is Float || y is Int,
    ensures
        ({
            let left = if x is Float {
                x->Float_0
            } else {
                float_of(x->Int_0)
            };
            let right = if y is Float {
                y->Float_0
            } else {
                float_of(y->Int_0)
            };
            let q = FloatQueryView { op: FloatOp::Order, left, right };
            let lt = value_of(comparison(l, CompareOp::Lt, r), vars, fl);
            let le = value_of(comparison(l, CompareOp::Le, r), vars, fl);
            let gt = value_of(comparison(l, CompareOp::Gt, r), vars, fl);
            let ge = value_of(comparison(l, CompareOp::Ge, r), vars, fl);
            match answer(fl, q) {
                None => lt == Err::<ValueView, Fail>(Fail::NeedFloat(q)) && le == lt && gt == lt
                    && ge == lt,
                Some(k) => {
                    &&& lt == Ok::<ValueView, Fail>(ValueView::Bool(k is Less))
                    &&& le == Ok::<ValueView, Fail>(ValueView::Bool(k is Less || k is Equal))
                    &&& gt == Ok::<ValueView, Fail>(ValueView::Bool(k is Greater))
                    &&& ge == Ok::<ValueView, Fail>(ValueView::Bool(k is Greater || k is Equal))
                },
            }
        }),
{
}

/// `a` comes before `b` by code points: it is the front of it, or has the smaller character
/// where they first differ.
pub open spec fn comes_before(a: Seq<char>, b: Seq<char>) -> bool {
    ||| a.len() < b.len() && b.take(a.len() as int) == a
    ||| exists|k: int| first_difference(a, b, k) && a[k] < b[k]
}

/// `a` and `b` first differ at `k`.
pub open spec fn first_difference(a: Seq<char>, b: Seq<char>, k: int) -> bool {
    0 <= k < a.len() && k < b.len() && a[k] != b[k] && a.take(k) == b.take(k)
}

proof fn lemma_comes_before(a: Seq<char>, b: Seq<char>)
    ensures
        text_le(a, b) <==> a == b || comes_before(a, b),
    decreases a.len(),
{
    if a.len() == 0 {
        if b.len() == 0 {
            assert(a =~= b);
        } else {
            assert(b.take(0) =~= a);
        }
    } else if b.len() == 0 {
    } else if a[0] != b[0] {
        assert(a.take(0) =~= b.take(0));
        assert(first_difference(a, b, 0));
        if comes_before(a, b) {
            if a.len() < b.len() && b.take(a.len() as int) == a {
                assert(b.take(a.len() as int)[0] == b[0]);
            } else {
                let k = choose|k: int| first_difference(a, b, k) && a[k] < b[k];
                if k > 0 {
                    assert(a.take(k)[0] == b.take(k)[0]);
                }
            }
        }
    } else {
        let (x, y) = (a.drop_first(), b.drop_first());
        lemma_comes_before(x, y);
        assert(a =~= seq![a[0]] + x);
        assert(b =~= seq![b[0]] + y);
        if x.len() < y.len() && y.take(x.len() as int) == x {
            assert(b.take(a.len() as int) =~= seq![b[0]] + y.take(x.len() as int));
        }
        if a.len() < b.len() && b.take(a.len() as int) == a {
            assert(y.take(x.len() as int) =~= b.take(a.len() as int).drop_first());
        }
        assert forall|k: int| #[trigger] first_difference(x, y, k) implies first_difference(
            a,
            b,
            k + 1,
        ) by {
            assert(a.take(k + 1) =~= seq![a[0]] + x.take(k));
            assert(b.take(k + 1) =~= seq![b[0]] + y.take(k));
        }
        assert forall|k: int| #[trigger] first_difference(a, b, k) implies first_difference(
            x,
            y,
            k - 1,
        ) by {
            assert(x.take(k - 1) =~= a.take(k).drop_first());
            assert(y.take(k - 1) =~= b.take(k).drop_first());
        }
        if comes_before(x, y) && !(x.len() < y.len() && y.take(x.len() as int) == x) {
            let k = choose|k: int| first_difference(x, y, k) && x[k] < y[k];
            assert(first_difference(a, b, k + 1));
        }
        if comes_before(a, b) && !(a.len() < b.len() && b.take(a.len() as int) == a) {
            let k = choose|k: int| first_difference(a, b, k) && a[k] < b[k];
            assert(first_difference(x, y, k - 1));
        }
    }
}

/// Texts are ordered by their code points, from the front.
pub proof fn law_text_order(
    l: AstView,
    r: AstView,
    a: Seq<char>,
    b: Seq<char>,
    vars: VarsView,
    fl: Floats,
)
    requires
        value_of(l, vars, fl) == Ok::<ValueView, Fail>(ValueView::Text(a)),
        value_of(r, vars, fl) == Ok::<ValueView, Fail>(ValueView::Text(b)),
    ensures
        value_of(comparison(l, CompareOp::Lt, r), vars, fl) == Ok::<ValueView, Fail>(
            ValueView::Bool(comes_before(a, b)),
        ),
        value_of(comparison(l, CompareOp::Le, r), vars, fl) == Ok::<ValueView, Fail>(
            ValueView::Bool(a == b || comes_before(a, b)),
        ),
        value_of(comparison(l, CompareOp::Gt, r), vars, fl) == Ok::<ValueView, Fail>(
            ValueView::Bool(comes_before(b, a)),
        ),
        value_of(comparison(l, CompareOp::Ge, r), vars, fl) == Ok::<ValueView, Fail>(
            ValueView::Bool(a == b || comes_before(b, a)),
        ),
{
    lemma_comes_before(a, b);
    lemma_comes_before(b, a);
    lemma_text_le_total(a, b);
    if text_le(a, b) && text_le(b, a) {
        lemma_text_le_antisym(a, b);
    }
    assert(!comes_before(a, a)) by {
        if comes_before(a, a) {
            let k = choose|k: int| first_difference(a, a, k) && a[k] < a[k];
        }
    }
}

/// Values that are neither two numbers nor two texts have no order: no ordering comparison
/// of them holds.
pub proof fn law_no_order(l: AstView, op: CompareOp, r: AstView, vars: VarsView, fl: Floats)
    requires
        value_of(l, vars, fl) is Ok,
        value_of(r, vars, fl) is Ok,
        op != CompareOp::Eq,
        op != CompareOp::Ne,
        !(value_of(l, vars, fl)->Ok_0 is Text && value_of(r, vars, fl)->Ok_0 is Text),
        !(value_of(l, vars, fl)->Ok_0 is Int || value_of(l, vars, fl)->Ok_0 is Float) || !(value_of(
            r,
            vars,
            fl,
        )->Ok_0 is Int || value_of(r, vars, fl)->Ok_0 is Float),
    ensures
        value_of(comparison(l, op, r), vars, fl) == Ok::<ValueView, Fail>(ValueView::Bool(false)),
{
}

/// `in` finds an item of a list, a part of a text and a key of a dict; `not in` is its
/// opposite.
pub proof fn law_membership(l: AstView, r: AstView, vars: VarsView, fl: Floats, k: int)
    requires
        value_of(l, vars, fl) is Ok,
        value_of(r, vars, fl) is Ok,
    ensures
        ({
            let x = value_of(l, vars, fl)->Ok_0;
            let yes = value_of(AstView::In(Box::new(l), Box::new(r), false), vars, fl);
            let no = value_of(AstView::In(Box::new(l), Box::new(r), true), vars, fl);
            &&& yes is Ok && yes->Ok_0 is Bool
            &&& no == Ok::<ValueView, Fail>(ValueView::Bool(!yes->Ok_0->Bool_0))
            &&& match value_of(r, vars, fl)->Ok_0 {
                ValueView::List(a) => {
                    &&& 0 <= k < a.len() && same_value(a[k], x) ==> yes->Ok_0->Bool_0
                    &&& (forall|j: int| 0 <= j < a.len() ==> !same_value(#[trigger] a[j], x))
                        ==> !yes->Ok_0->Bool_0
                },
                ValueView::Text(s) => match x {
                    ValueView::Text(t) => {
                        &&& 0 <= k && k + t.len() <= s.len() && s.subrange(k, k + t.len()) == t
                            ==> yes->Ok_0->Bool_0
                        &&& (forall|j: int|
                            #![trigger s.subrange(j, j + t.len())]
                            0 <= j && j + t.len() <= s.len() ==> s.subrange(j, j + t.len()) != t)
                            ==> !yes->Ok_0->Bool_0
                    },
                    _ => !yes->Ok_0->Bool_0,
                },
                ValueView::Dict(o) => match x {
                    ValueView::Text(t) => yes->Ok_0->Bool_0 <==> get(o, t) is Some,
                    _ => !yes->Ok_0->Bool_0,
                },
                _ => !yes->Ok_0->Bool_0,
            }
        }),
{
    match (value_of(r, vars, fl)->Ok_0, value_of(l, vars, fl)->Ok_0) {
        (ValueView::Text(s), ValueView::Text(t)) => {
            if 0 <= k && k + t.len() <= s.len() && s.subrange(k, k + t.len()) == t {
                assert(stands_at(s, t, k));
            }
            if occurs(s, t) {
                let j = choose|j: int| stands_at(s, t, j);
                assert(s.subrange(j, j + t.len()) == t);
            }
        },
        (ValueView::Dict(o), ValueView::Text(t)) => {
            lemma_pos(o, t);
        },
        _ => {},
    }
}

// ---------------------------------------------------------------------------------------
// Variables, attributes, subscripts
// ---------------------------------------------------------------------------------------

/// A variable is what the variables hold under its name; an attribute and a subscript by a
/// text are what a dict holds under it; what is not there is undefined.
pub proof fn law_lookups(e: AstView, i: AstView, k: Seq<char>, vars: VarsView, fl: Floats)
    ensures
        value_of(AstView::Var(k), vars, fl) == (match get(vars, k) {
            Some(v) => Ok::<ValueView, Fail>(v),
            None => Err::<ValueView, Fail>(Fail::Undefined),
        }),
        value_of(e, vars, fl) is Ok ==> value_of(AstView::Attr(Box::new(e), k), vars, fl) == (
        match value_of(e, vars, fl)->Ok_0 {
            ValueView::Dict(o) => match get(o, k) {
                Some(v) => Ok::<ValueView, Fail>(v),
                None => Err::<ValueView, Fail>(Fail::Undefined),
            },
            _ => Err::<ValueView, Fail>(Fail::Undefined),
        }),
        value_of(e, vars, fl) is Ok && value_of(i, vars, fl) == Ok::<ValueView, Fail>(
            ValueView::Text(k),
        ) ==> value_of(AstView::Index(Box::new(e), Box::new(i)), vars, fl) == value_of(
            AstView::Attr(Box::new(e), k),
            vars,
            fl,
        ),
        value_of(e, vars, fl) is Err ==> value_of(AstView::Attr(Box::new(e), k), vars, fl)
            == value_of(e, vars, fl),
{
}

/// A subscript from 0 on counts from the front, a negative one from the end; one beyond an
/// end is undefined.
pub proof fn law_subscripts(e: AstView, i: AstView, n: int, vars: VarsView, fl: Floats)
    requires
        value_of(i, vars, fl) == Ok::<ValueView, Fail>(ValueView::Int(n)),
        i64::MIN <= n <= i64::MAX,
    ensures
        ({
            let o = value_of(AstView::Index(Box::new(e), Box::new(i)), vars, fl);
            match value_of(e, vars, fl) {
                Ok(ValueView::List(a)) => if 0 <= n < a.len() {
                    o == Ok::<ValueView, Fail>(a[n])
                } else if -a.len() <= n < 0 {
                    o == Ok::<ValueView, Fail>(a[a.len() + n])
                } else {
                    o == Err::<ValueView, Fail>(Fail::Undefined)
                },
                Ok(ValueView::Text(s)) => if 0 <= n < s.len() {
                    o == Ok::<ValueView, Fail>(ValueView::Text(seq![s[n]]))
                } else if -s.len() <= n < 0 {
                    o == Ok::<ValueView, Fail>(ValueView::Text(seq![s[s.len() + n]]))
                } else {
                    o == Err::<ValueView, Fail>(Fail::Undefined)
                },
                Ok(_) => o == Err::<ValueView, Fail>(Fail::Undefined),
                Err(f) => o == Err::<ValueView, Fail>(f),
            }
        }),
{
}

// ---------------------------------------------------------------------------------------
// Slices
// ---------------------------------------------------------------------------------------

/// An integer as a bound.
pub open spec fn bound(i: int) -> Option<ValueView> {
    Some(ValueView::Int(i))
}

/// A slice forward: from a start to a stop within the list, it has every `step`-th item, as
/// long as that is before the stop.
pub proof fn law_forward_slice(l: Seq<ValueView>, a: int, b: int, step: int, k: int)
    requires
        0 <= a <= l.len(),
        0 <= b <= l.len(),
        0 < step <= i64::MAX,
        l.len() <= i64::MAX,
        k >= 0,
    ensures
        ({
            let o = sliced(ValueView::List(l), bound(a), bound(b), bound(step));
            &&& o is Ok && o->Ok_0 is List
            &&& k < o->Ok_0->List_0.len() <==> a + k * step < b
            &&& k < o->Ok_0->List_0.len() ==> o->Ok_0->List_0[k] == l[a + k * step]
        }),
{
    assert(k * step >= 0) by (nonlinear_arith)
        requires
            k >= 0,
            step > 0,
    ;
    lemma_count(b - a, step, k);
}

/// A slice backward: from a start within the list, it has every `step`-th item before it, as
/// long as that is behind the stop.
pub proof fn law_backward_slice(l: Seq<ValueView>, a: int, b: int, step: int, k: int)
    requires
        0 <= a < l.len(),
        0 <= b < l.len(),
        0 < step <= i64::MAX,
        l.len() <= i64::MAX,
        k >= 0,
    ensures
        ({
            let o = sliced(ValueView::List(l), bound(a), bound(b), bound(-step));
            &&& o is Ok && o->Ok_0 is List
            &&& k < o->Ok_0->List_0.len() <==> a - k * step > b
            &&& k < o->Ok_0->List_0.len() ==> o->Ok_0->List_0[k] == l[a - k * step]
        }),
{
    assert(k * step >= 0) by (nonlinear_arith)
        requires
            k >= 0,
            step > 0,
    ;
    assert(k * (-step) == -(k * step)) by (nonlinear_arith);
    lemma_count(a - b, step, k);
}

/// The larger of two integers.
pub open spec fn larger(a: int, b: int) -> int {
    if a < b {
        b
    } else {
        a
    }
}

/// The smaller of two integers.
pub open spec fn smaller(a: int, b: int) -> int {
    if a < b {
        a
    } else {
        b
    }
}

/// Where a slice forward starts or stops: what is left out is `end`, a negative bound counts
/// from the end of the list, and none lies outside of it.
pub open spec fn forward_bound(b: Option<int>, len: int, end: int) -> int {
    match b {
        None => end,
        Some(v) => if v < 0 {
            larger(v + len, 0)
        } else {
            smaller(v, len)
        },
    }
}

/// Where a slice backward starts or stops: what is left out is `end`, a negative bound
/// counts from the end of the list, and none lies further out than just before the first
/// item or on the last.
pub open spec fn backward_bound(b: Option<int>, len: int, end: int) -> int {
    match b {
        None => end,
        Some(v) => if v < 0 {
            larger(v + len, -1)
        } else {
            smaller(v, len - 1)
        },
    }
}

/// A bound, or none.
pub open spec fn optional_bound(b: Option<int>) -> Option<ValueView> {
    match b {
        Some(v) => Some(ValueView::Int(v)),
        None => None,
    }
}

/// A slice forward with any bounds: every `step`-th item from its start on, as long as that
/// is before its stop.
pub proof fn law_slices_forward(
    l: Seq<ValueView>,
    a: Option<int>,
    b: Option<int>,
    step: int,
    k: int,
)
    requires
        a matches Some(v) ==> i64::MIN <= v <= i64::MAX,
        b matches Some(v) ==> i64::MIN <= v <= i64::MAX,
        0 < step <= i64::MAX,
        k >= 0,
    ensures
        ({
            let o = sliced(ValueView::List(l), optional_bound(a), optional_bound(b), bound(step));
            let from = forward_bound(a, l.len() as int, 0);
            let to = forward_bound(b, l.len() as int, l.len() as int);
            &&& o is Ok && o->Ok_0 is List
            &&& k < o->Ok_0->List_0.len() <==> from + k * step < to
            &&& k < o->Ok_0->List_0.len() ==> o->Ok_0->List_0[k] == l[from + k * step]
        }),
{
    let from = forward_bound(a, l.len() as int, 0);
    let to = forward_bound(b, l.len() as int, l.len() as int);
    lemma_count(to - from, step, k);
}

/// A slice backward with any bounds: every `step`-th item from its start on, as long as that
/// is behind its stop.
pub proof fn law_slices_backward(
    l: Seq<ValueView>,
    a: Option<int>,
    b: Option<int>,
    step: int,
    k: int,
)
    requires
        a matches Some(v) ==> i64::MIN <= v <= i64::MAX,
        b matches Some(v) ==> i64::MIN <= v <= i64::MAX,
        0 < step <= i64::MAX,
        k >= 0,
    ensures
        ({
            let o = sliced(ValueView::List(l), optional_bound(a), optional_bound(b), bound(-step));
            let from = backward_bound(a, l.len() as int, l.len() - 1);
            let to = backward_bound(b, l.len() as int, -1);
            &&& o is Ok && o->Ok_0 is List
            &&& k < o->Ok_0->List_0.len() <==> from - k * step > to
            &&& k < o->Ok_0->List_0.len() ==> o->Ok_0->List_0[k] == l[from - k * step]
        }),
{
    let from = backward_bound(a, l.len() as int, l.len() - 1);
    let to = backward_bound(b, l.len() as int, -1);
    assert(k * (-step) == -(k * step)) by (nonlinear_arith);
    lemma_count(from - to, step, k);
}

proof fn lemma_count(span: int, step: int, k: int)
    requires
        step > 0,
        k >= 0,
    ensures
        k < step_count(span, step) <==> k * step < span,
{
    if span > 0 {
        let q = (span - 1) / step;
        let m = (span - 1) % step;
        assert(span - 1 == step * q + m && 0 <= m < step) by (nonlinear_arith)
            requires
                q == (span - 1) / step,
                m == (span - 1) % step,
                step > 0,
        ;
        assert(step * q == q * step) by (nonlinear_arith);
        if k <= q {
            assert(k * step <= q * step) by (nonlinear_arith)
                requires
                    k <= q,
                    step > 0,
            ;
        } else {
            assert(k * step >= q * step + step) by (nonlinear_arith)
                requires
                    k >= q + 1,
                    step > 0,
            ;
        }
    } else {
        assert(k * step >= 0) by (nonlinear_arith)
            requires
                k >= 0,
                step > 0,
        ;
    }
}

/// A negative bound counts from the end; one beyond an end is that end; one that is left out
/// or none is the end where a slice forward starts or stops; a step that is left out is 1.
pub proof fn law_slice_bounds(c: ValueView, len: int, n: int, x: Option<ValueView>)
    requires
        c is Text && c->Text_0.len() == len || c is List && c->List_0.len() == len,
        0 < len <= i64::MAX,
        i64::MIN <= n <= i64::MAX,
    ensures
        -len <= n < 0 ==> sliced(c, bound(n), x, None) == sliced(c, bound(len + n), x, None),
        -len <= n < 0 ==> sliced(c, x, bound(n), None) == sliced(c, x, bound(len + n), None),
        n > len ==> sliced(c, bound(n), x, None) == sliced(c, bound(len), x, None),
        n > len ==> sliced(c, x, bound(n), None) == sliced(c, x, bound(len), None),
        n < -len ==> sliced(c, bound(n), x, None) == sliced(c, bound(0), x, None),
        n < -len ==> sliced(c, x, bound(n), None) == sliced(c, x, bound(0), None),
        sliced(c, None, x, None) == sliced(c, bound(0), x, None),
        sliced(c, x, None, None) == sliced(c, x, bound(len), None),
        sliced(c, Some(ValueView::Null), x, None) == sliced(c, None, x, None),
        sliced(c, x, x, None) == sliced(c, x, x, bound(1)),
        sliced(c, x, x, bound(0)) is Err,
{
}

/// A slice of a text selects the characters at the positions where the slice of a list of
/// that length selects items.
pub proof fn law_text_slices(
    s: Seq<char>,
    l: Seq<ValueView>,
    a: Option<ValueView>,
    b: Option<ValueView>,
    step: Option<ValueView>,
    k: int,
)
    requires
        l.len() == s.len(),
        forall|j: int| 0 <= j < l.len() ==> #[trigger] l[j] == ValueView::Text(seq![s[j]]),
    ensures
        ({
            let t = sliced(ValueView::Text(s), a, b, step);
            let o = sliced(ValueView::List(l), a, b, step);
            &&& t is Ok <==> o is Ok
            &&& t is Ok ==> t->Ok_0 is Text && o->Ok_0 is List && t->Ok_0->Text_0.len()
                == o->Ok_0->List_0.len() && (0 <= k < t->Ok_0->Text_0.len() ==> o->Ok_0->List_0[k]
                == ValueView::Text(seq![t->Ok_0->Text_0[k]]))
        }),
{
    let n = s.len() as int;
    match (
        slice_bound(a),
        slice_bound(b),
        slice_bound(step),
    ) {
        (Ok(x), Ok(y), Ok(z)) => {
            law_slices_stay_inside(n, x, y, z, k);
        },
        _ => {},
    }
}

/// A slice in an expression is the slice of its operand's value, by its parts' values.
pub proof fn law_slice_expression(
    e: AstView,
    a: AstView,
    b: AstView,
    c: AstView,
    vars: VarsView,
    fl: Floats,
)
    requires
        value_of(e, vars, fl) is Ok,
        value_of(a, vars, fl) is Ok,
        value_of(b, vars, fl) is Ok,
        value_of(c, vars, fl) is Ok,
    ensures
        ({
            let v = value_of(e, vars, fl)->Ok_0;
            let (x, y, z) = (
                Some(value_of(a, vars, fl)->Ok_0),
                Some(value_of(b, vars, fl)->Ok_0),
                Some(value_of(c, vars, fl)->Ok_0),
            );
            let (p, q, r) = (Some(Box::new(a)), Some(Box::new(b)), Some(Box::new(c)));
            &&& value_of(AstView::Slice(Box::new(e), p, q, r), vars, fl) == sliced(v, x, y, z)
            &&& value_of(AstView::Slice(Box::new(e), p, q, None), vars, fl) == sliced(v, x, y, None)
            &&& value_of(AstView::Slice(Box::new(e), None, q, None), vars, fl) == sliced(
                v,
                None,
                y,
                None,
            )
            &&& value_of(AstView::Slice(Box::new(e), p, None, None), vars, fl) == sliced(
                v,
                x,
                None,
                None,
            )
        }),
{
}

} // verus!
