//! Asking about floats: a question is never asked twice, and an answer changes nothing
//! that was decided without it. So an evaluation can be run again, each time with the
//! answer to what it asked before, until it asks no more.

use vstd::prelude::*;
use crate::expr::ast::{AstView, BinOp, CompareOp};
use crate::expr::eval::{bool_outcome, value_of};
use crate::expr::evaluated;
use crate::expr::filters::{filtered, joined};
use crate::expr::number::{answer, Fail, FloatAnswerView, FloatQueryView, Floats, Outcome};
use crate::expr::ops::{binary, compared, text_form};
use crate::expr::parser::parsed;
use crate::value::{ValueView, VarsView};

verus! {

/// `gl` gives every answer that `fl` gives.
pub open spec fn answers_too(fl: Floats, gl: Floats) -> bool {
    forall|q: FloatQueryView|
        (#[trigger] answer(fl, q)) is Some ==> answer(gl, q) == answer(fl, q)
}

/// An outcome under `fl` against that under `gl`: it waits for an answer that `fl` does not
/// give, or the two are the same.
pub open spec fn settled(fl: Floats, o: Outcome, p: Outcome) -> bool {
    match o {
        Err(Fail::NeedFloat(q)) => answer(fl, q) is None,
        _ => p == o,
    }
}

/// The same of outcomes that may be missing.
pub open spec fn opt_settled(fl: Floats, o: Option<Outcome>, p: Option<Outcome>) -> bool {
    match (o, p) {
        (None, None) => true,
        (Some(x), Some(y)) => settled(fl, x, y),
        _ => false,
    }
}

/// Joining asks nothing.
proof fn lemma_joined(a: Seq<ValueView>, n: nat, sep: Seq<char>)
    ensures
        joined(a, n, sep) matches Err(e) ==> e is Runtime,
    decreases n,
{
    if 0 < n <= a.len() {
        lemma_joined(a, (n - 1) as nat, sep);
    }
}

proof fn lemma_filtered(
    fl: Floats,
    name: Seq<char>,
    v: ValueView,
    a0: Option<Outcome>,
    a1: Option<Outcome>,
    b0: Option<Outcome>,
    b1: Option<Outcome>,
)
    requires
        opt_settled(fl, a0, b0),
        opt_settled(fl, a1, b1),
    ensures
        settled(fl, filtered(name, v, a0, a1), filtered(name, v, b0, b1)),
{
    if let ValueView::List(l) = v {
        if let Some(Ok(x)) = a0 {
            if let Ok(sep) = text_form(x) {
                lemma_joined(l, l.len(), sep);
            }
        }
        lemma_joined(l, l.len(), Seq::empty());
    }
}

proof fn lemma_binary(fl: Floats, gl: Floats, op: BinOp, l: ValueView, r: ValueView)
    requires
        answers_too(fl, gl),
    ensures
        settled(fl, binary(fl, op, l, r), binary(gl, op, l, r)),
{
}

proof fn lemma_compared(fl: Floats, gl: Floats, l: ValueView, op: CompareOp, r: ValueView)
    requires
        answers_too(fl, gl),
    ensures
        settled(fl, bool_outcome(compared(fl, l, op, r)), bool_outcome(compared(gl, l, op, r))),
{
}

/// More answers change no value and no failure, but those that wait for an answer; and
/// what an evaluation waits for is an answer that is not there.
#[verifier::rlimit(40)]
pub proof fn law_answers_change_nothing_decided(
    a: AstView,
    vars: VarsView,
    fl: Floats,
    gl: Floats,
)
    requires
        answers_too(fl, gl),
    ensures
        settled(fl, value_of(a, vars, fl), value_of(a, vars, gl)),
    decreases a,
{
    match a {
        AstView::Lit(_) => {},
        AstView::Var(_) => {},
        AstView::Attr(e, _) => law_answers_change_nothing_decided(*e, vars, fl, gl),
        AstView::Index(e, i) => {
            law_answers_change_nothing_decided(*e, vars, fl, gl);
            law_answers_change_nothing_decided(*i, vars, fl, gl);
        },
        AstView::Slice(e, start, stop, step) => {
            law_answers_change_nothing_decided(*e, vars, fl, gl);
            if let Some(x) = start {
                law_answers_change_nothing_decided(*x, vars, fl, gl);
            }
            if let Some(x) = stop {
                law_answers_change_nothing_decided(*x, vars, fl, gl);
            }
            if let Some(x) = step {
                law_answers_change_nothing_decided(*x, vars, fl, gl);
            }
        },
        AstView::Neg(e) => law_answers_change_nothing_decided(*e, vars, fl, gl),
        AstView::Bin(op, l, r) => {
            law_answers_change_nothing_decided(*l, vars, fl, gl);
            law_answers_change_nothing_decided(*r, vars, fl, gl);
            if let (Ok(x), Ok(y)) = (value_of(*l, vars, fl), value_of(*r, vars, fl)) {
                lemma_binary(fl, gl, op, x, y);
            }
        },
        AstView::Not(e) => law_answers_change_nothing_decided(*e, vars, fl, gl),
        AstView::And(l, r) => {
            law_answers_change_nothing_decided(*l, vars, fl, gl);
            law_answers_change_nothing_decided(*r, vars, fl, gl);
        },
        AstView::Or(l, r) => {
            law_answers_change_nothing_decided(*l, vars, fl, gl);
            law_answers_change_nothing_decided(*r, vars, fl, gl);
        },
        AstView::Defined(e, _) => law_answers_change_nothing_decided(*e, vars, fl, gl),
        AstView::Compare(l, op, r) => {
            law_answers_change_nothing_decided(*l, vars, fl, gl);
            law_answers_change_nothing_decided(*r, vars, fl, gl);
            if let (Ok(x), Ok(y)) = (value_of(*l, vars, fl), value_of(*r, vars, fl)) {
                lemma_compared(fl, gl, x, op, y);
            }
        },
        AstView::In(l, r, _) => {
            law_answers_change_nothing_decided(*l, vars, fl, gl);
            law_answers_change_nothing_decided(*r, vars, fl, gl);
        },
        AstView::Filter(e, name, args) => {
            law_answers_change_nothing_decided(*e, vars, fl, gl);
            let a0 = if args.len() > 0 {
                Some(value_of(args[0], vars, fl))
            } else {
                None
            };
            let b0 = if args.len() > 0 {
                Some(value_of(args[0], vars, gl))
            } else {
                None
            };
            let a1 = if args.len() > 1 {
                Some(value_of(args[1], vars, fl))
            } else {
                None
            };
            let b1 = if args.len() > 1 {
                Some(value_of(args[1], vars, gl))
            } else {
                None
            };
            if args.len() > 0 {
                law_answers_change_nothing_decided(args[0], vars, fl, gl);
            }
            if args.len() > 1 {
                law_answers_change_nothing_decided(args[1], vars, fl, gl);
            }
            if args.len() > 2 {
                law_answers_change_nothing_decided(args[2], vars, fl, gl);
            }
            if let Ok(x) = value_of(*e, vars, fl) {
                lemma_filtered(fl, name, x, a0, a1, b0, b1);
            }
        },
        AstView::Cond(c, b, o) => {
            law_answers_change_nothing_decided(*c, vars, fl, gl);
            law_answers_change_nothing_decided(*b, vars, fl, gl);
            if let Some(e) = o {
                law_answers_change_nothing_decided(*e, vars, fl, gl);
            }
        },
    }
}

/// An answer to a question that had none is one answer more.
pub proof fn law_answers_add_up(fl: Floats, q: FloatQueryView, a: FloatAnswerView)
    requires
        answer(fl, q) is None,
    ensures
        answers_too(fl, fl.push((q, a))),
        answer(fl.push((q, a)), q) == Some(a),
{
    assert(fl.push((q, a)).drop_last() =~= fl);
}

/// An expression asks only what the table does not answer; and once it has a value, or has
/// failed, further answers change nothing.
pub proof fn law_questions_are_new(
    src: Seq<char>,
    vars: VarsView,
    fl: Floats,
    q: FloatQueryView,
    a: FloatAnswerView,
)
    requires
        answer(fl, q) is None,
    ensures
        evaluated(src, vars, fl) matches Err(Fail::NeedFloat(w)) ==> answer(fl, w) is None,
        !(evaluated(src, vars, fl) matches Err(Fail::NeedFloat(_))) ==> evaluated(
            src,
            vars,
            fl.push((q, a)),
        ) == evaluated(src, vars, fl),
{
    law_answers_add_up(fl, q, a);
    if let Ok(e) = parsed(src) {
        law_answers_change_nothing_decided(e, vars, fl, fl.push((q, a)));
    }
}

} // verus!
