//! The value of an expression.

use vstd::prelude::*;
use crate::assoc::get;
use crate::expr::ast::{lemma_shape, Ast, AstView};
use crate::expr::filters::{filter_value, filtered, opt_outcome};
use crate::expr::number::{as_num, negate, negated, operand, outcome_of, EvalError, Fail, FloatTable, Floats, Outcome};
use crate::expr::ops::{bin_op, binary, compare, compared, contains, index, is_in, is_true, kind_name, kind_of, opt_value, slice, sliced, subscript, truthy};
use crate::text::{join2, same};
use crate::value::{Value, ValueView, VarMap, VarsView};

verus! {

/// The truth of an outcome; what is undefined is not true.
pub open spec fn truth(o: Outcome) -> Result<bool, Fail> {
    match o {
        Ok(v) => Ok(is_true(v)),
        Err(Fail::Undefined) => Ok(false),
        Err(e) => Err(e),
    }
}

/// The truth of an operand of `and` or `or`: what is undefined or fails is not true.
pub open spec fn loose_truth(o: Outcome) -> Result<bool, Fail> {
    match o {
        Ok(v) => Ok(is_true(v)),
        Err(Fail::Undefined) => Ok(false),
        Err(Fail::Runtime(_)) => Ok(false),
        Err(e) => Err(e),
    }
}

/// A truth as an outcome.
pub open spec fn bool_outcome(r: Result<bool, Fail>) -> Outcome {
    match r {
        Ok(b) => Ok(ValueView::Bool(b)),
        Err(e) => Err(e),
    }
}

/// `is defined`, or with `undefined`, `is undefined`. What fails at run time is defined.
pub open spec fn definedness(o: Outcome, undefined: bool) -> Outcome {
    match o {
        Ok(_) => Ok(ValueView::Bool(!undefined)),
        Err(Fail::Undefined) => Ok(ValueView::Bool(undefined)),
        Err(Fail::Runtime(_)) => Ok(ValueView::Bool(!undefined)),
        Err(e) => Err(e),
    }
}

/// The optional part of a slice.
pub open spec fn part_value(o: Option<Outcome>) -> Result<Option<ValueView>, Fail> {
    match o {
        None => Ok(None),
        Some(Ok(v)) => Ok(Some(v)),
        Some(Err(e)) => Err(e),
    }
}

/// A slice, from the outcomes of its parts; the first failure stands.
pub open spec fn slice_outcome(
    base: Outcome,
    start: Option<Outcome>,
    stop: Option<Outcome>,
    step: Option<Outcome>,
) -> Outcome {
    match base {
        Err(e) => Err(e),
        Ok(c) => match part_value(start) {
            Err(e) => Err(e),
            Ok(a) => match part_value(stop) {
                Err(e) => Err(e),
                Ok(b) => match part_value(step) {
                    Err(e) => Err(e),
                    Ok(s) => sliced(c, a, b, s),
                },
            },
        },
    }
}

/// The filter `default`: the value, or the first argument (the empty text without one)
/// where the value is undefined or, with a true second argument, not true.
pub open spec fn default_outcome(v: Outcome, a0: Option<Outcome>, a1: Option<Outcome>) -> Outcome {
    let fallback = match a0 {
        Some(o) => o,
        None => Ok(ValueView::Text(Seq::empty())),
    };
    match v {
        Ok(x) => match a1 {
            None => Ok(x),
            Some(Err(e)) => Err(e),
            Some(Ok(f)) => if is_true(f) && !is_true(x) {
                fallback
            } else {
                Ok(x)
            },
        },
        Err(Fail::Undefined) => fallback,
        Err(e) => Err(e),
    }
}

/// The filter `ternary`: one of its arguments by the truth of the value; what is undefined
/// is not true, and none takes the third argument where that is there and not none.
pub open spec fn ternary_outcome(
    v: Outcome,
    n: nat,
    yes: Outcome,
    no: Outcome,
    none: Option<Outcome>,
) -> Outcome {
    if n < 2 || n > 3 {
        Err(Fail::Unsupported("filter `ternary` takes 2 or 3 arguments (true, false[, none])"@))
    } else {
        match v {
            Ok(ValueView::Null) => match none {
                Some(Err(e)) => Err(e),
                Some(Ok(x)) => if x is Null {
                    no
                } else {
                    Ok(x)
                },
                None => no,
            },
            Ok(x) => if is_true(x) {
                yes
            } else {
                no
            },
            Err(Fail::Undefined) => no,
            Err(e) => Err(e),
        }
    }
}

/// The value of an expression under some variables and some answers about floats.
pub open spec fn value_of(a: AstView, vars: VarsView, fl: Floats) -> Outcome
    decreases a,
{
    match a {
        AstView::Lit(v) => Ok(v),
        AstView::Var(n) => match get(vars, n) {
            Some(v) => Ok(v),
            None => Err(Fail::Undefined),
        },
        AstView::Attr(e, k) => match value_of(*e, vars, fl) {
            Err(x) => Err(x),
            Ok(ValueView::Dict(o)) => match get(o, k) {
                Some(v) => Ok(v),
                None => Err(Fail::Undefined),
            },
            Ok(_) => Err(Fail::Undefined),
        },
        AstView::Index(e, i) => match value_of(*e, vars, fl) {
            Err(x) => Err(x),
            Ok(c) => match value_of(*i, vars, fl) {
                Err(x) => Err(x),
                Ok(k) => subscript(c, k),
            },
        },
        AstView::Slice(e, start, stop, step) => slice_outcome(
            value_of(*e, vars, fl),
            match start {
                Some(x) => Some(value_of(*x, vars, fl)),
                None => None,
            },
            match stop {
                Some(x) => Some(value_of(*x, vars, fl)),
                None => None,
            },
            match step {
                Some(x) => Some(value_of(*x, vars, fl)),
                None => None,
            },
        ),
        AstView::Neg(e) => match value_of(*e, vars, fl) {
            Err(x) => Err(x),
            Ok(v) => match as_num(v) {
                Some(n) => negated(n),
                None => Err(Fail::Runtime("cannot negate "@ + kind_name(v))),
            },
        },
        AstView::Bin(op, l, r) => match value_of(*l, vars, fl) {
            Err(x) => Err(x),
            Ok(x) => match value_of(*r, vars, fl) {
                Err(x) => Err(x),
                Ok(y) => binary(fl, op, x, y),
            },
        },
        AstView::Not(e) => match truth(value_of(*e, vars, fl)) {
            Ok(b) => Ok(ValueView::Bool(!b)),
            Err(x) => Err(x),
        },
        AstView::And(l, r) => match loose_truth(value_of(*l, vars, fl)) {
            Err(x) => Err(x),
            Ok(b) => if b {
                bool_outcome(loose_truth(value_of(*r, vars, fl)))
            } else {
                Ok(ValueView::Bool(false))
            },
        },
        AstView::Or(l, r) => match loose_truth(value_of(*l, vars, fl)) {
            Err(x) => Err(x),
            Ok(b) => if b {
                Ok(ValueView::Bool(true))
            } else {
                bool_outcome(loose_truth(value_of(*r, vars, fl)))
            },
        },
        AstView::Defined(e, undefined) => definedness(value_of(*e, vars, fl), undefined),
        AstView::Compare(l, op, r) => match value_of(*l, vars, fl) {
            Err(x) => Err(x),
            Ok(x) => match value_of(*r, vars, fl) {
                Err(x) => Err(x),
                Ok(y) => bool_outcome(compared(fl, x, op, y)),
            },
        },
        AstView::In(l, r, negated) => match value_of(*l, vars, fl) {
            Err(x) => Err(x),
            Ok(x) => match value_of(*r, vars, fl) {
                Err(x) => Err(x),
                Ok(y) => Ok(ValueView::Bool(is_in(x, y) != negated)),
            },
        },
        AstView::Filter(e, name, args) => {
            let v = value_of(*e, vars, fl);
            let a0 = if args.len() > 0 {
                Some(value_of(args[0], vars, fl))
            } else {
                None
            };
            let a1 = if args.len() > 1 {
                Some(value_of(args[1], vars, fl))
            } else {
                None
            };
            let a2 = if args.len() > 2 {
                Some(value_of(args[2], vars, fl))
            } else {
                None
            };
            filter_outcome(name, v, args.len(), a0, a1, a2)
        },
        AstView::Cond(c, b, o) => match truth(value_of(*c, vars, fl)) {
            Err(x) => Err(x),
            Ok(t) => if t {
                value_of(*b, vars, fl)
            } else {
                match o {
                    Some(e) => value_of(*e, vars, fl),
                    None => Err(Fail::Undefined),
                }
            },
        },
    }
}

/// What a filter gives, from the outcomes of its operand and its first three arguments.
pub open spec fn filter_outcome(
    name: Seq<char>,
    v: Outcome,
    n: nat,
    a0: Option<Outcome>,
    a1: Option<Outcome>,
    a2: Option<Outcome>,
) -> Outcome {
    if name == "default"@ || name == "d"@ {
        default_outcome(v, a0, a1)
    } else if name == "ternary"@ {
        ternary_outcome(v, n, a0.unwrap(), a1.unwrap(), a2)
    } else {
        match v {
            Err(e) => Err(e),
            Ok(x) => filtered(name, x, a0, a1),
        }
    }
}

/// A truth, where it is to be known.
fn truth_of(r: Result<Value, EvalError>) -> (t: Result<bool, EvalError>)
    ensures
        (match t {
            Ok(b) => Ok(b),
            Err(e) => Err(e@),
        }) == truth(outcome_of(r)),
{
    match r {
        Ok(v) => Ok(truthy(&v)),
        Err(EvalError::Undefined) => Ok(false),
        Err(e) => Err(e),
    }
}

/// The truth of an operand of `and` or `or`.
fn truthy_or_undef(r: Result<Value, EvalError>) -> (t: Result<bool, EvalError>)
    ensures
        (match t {
            Ok(b) => Ok(b),
            Err(e) => Err(e@),
        }) == loose_truth(outcome_of(r)),
{
    match r {
        Ok(v) => Ok(truthy(&v)),
        Err(EvalError::Undefined) => Ok(false),
        Err(EvalError::Runtime(_)) => Ok(false),
        Err(e) => Err(e),
    }
}

/// Whether an outcome is defined.
fn defined(r: Result<Value, EvalError>, undefined: bool) -> (t: Result<Value, EvalError>)
    ensures
        outcome_of(t) == definedness(outcome_of(r), undefined),
{
    match r {
        Ok(_) => Ok(Value::Bool(!undefined)),
        Err(EvalError::Undefined) => Ok(Value::Bool(undefined)),
        Err(EvalError::Runtime(_)) => Ok(Value::Bool(!undefined)),
        Err(e) => Err(e),
    }
}

/// A truth as a value.
fn bool_value(r: Result<bool, EvalError>) -> (t: Result<Value, EvalError>)
    ensures
        outcome_of(t) == bool_outcome(
            match r {
                Ok(b) => Ok(b),
                Err(e) => Err(e@),
            },
        ),
{
    match r {
        Ok(b) => Ok(Value::Bool(b)),
        Err(e) => Err(e),
    }
}

/// The negative of a value.
fn negate_value(v: &Value) -> (r: Result<Value, EvalError>)
    ensures
        outcome_of(r) == (match as_num(v@) {
            Some(n) => negated(n),
            None => Err(Fail::Runtime("cannot negate "@ + kind_name(v@))),
        }),
{
    match v {
        Value::Number(n) => {
            let x = operand(n);
            negate(&x)
        },
        _ => Err(EvalError::Runtime(join2("cannot negate ", kind_of(v)))),
    }
}

/// Looks up an entry.
fn lookup(o: &VarMap, k: &str) -> (r: Result<Value, EvalError>)
    ensures
        outcome_of(r) == (match get(o@, k@) {
            Some(v) => Ok(v),
            None => Err(Fail::Undefined),
        }),
{
    match o.get(k) {
        Some(v) => Ok(v.clone()),
        None => Err(EvalError::Undefined),
    }
}

/// Evaluates an argument of a filter, where it is there.
fn eval_arg(args: &Vec<Ast>, i: usize, vars: &VarMap, fl: &FloatTable) -> (r: Option<
    Result<Value, EvalError>,
>)
    ensures
        opt_outcome(r) == (if i < args@.len() {
            Some(value_of(args@[i as int]@, vars@, fl@))
        } else {
            None
        }),
    decreases args, 0nat,
{
    if i < args.len() {
        assert(decreases_to!(args => args@[i as int]));
        Some(eval(&args[i], vars, fl))
    } else {
        None
    }
}

/// Evaluates the filter `default`.
fn eval_default(v: Result<Value, EvalError>, args: &Vec<Ast>, vars: &VarMap, fl: &FloatTable) -> (r:
    Result<Value, EvalError>)
    ensures
        outcome_of(r) == default_outcome(
            outcome_of(v),
            if args@.len() > 0 {
                Some(value_of(args@[0]@, vars@, fl@))
            } else {
                None
            },
            if args@.len() > 1 {
                Some(value_of(args@[1]@, vars@, fl@))
            } else {
                None
            },
        ),
    decreases args, 1nat,
{
    match v {
        Ok(x) => {
            let on_falsey = match eval_arg(args, 1, vars, fl) {
                None => {
                    return Ok(x);
                },
                Some(Err(e)) => {
                    return Err(e);
                },
                Some(Ok(f)) => truthy(&f),
            };
            if !on_falsey || truthy(&x) {
                return Ok(x);
            }
        },
        Err(EvalError::Undefined) => {},
        Err(e) => {
            return Err(e);
        },
    }
    match eval_arg(args, 0, vars, fl) {
        Some(r) => r,
        None => {
            let none = String::new();
            assert(none@ =~= Seq::<char>::empty());
            Ok(Value::Text(none))
        },
    }
}

/// Evaluates the filter `ternary`, given two or three arguments.
fn eval_ternary(v: Result<Value, EvalError>, args: &Vec<Ast>, vars: &VarMap, fl: &FloatTable) -> (r:
    Result<Value, EvalError>)
    requires
        2 <= args@.len() <= 3,
    ensures
        outcome_of(r) == ternary_outcome(
            outcome_of(v),
            args@.len(),
            value_of(args@[0]@, vars@, fl@),
            value_of(args@[1]@, vars@, fl@),
            if args@.len() > 2 {
                Some(value_of(args@[2]@, vars@, fl@))
            } else {
                None
            },
        ),
    decreases args, 1nat,
{
    assert(decreases_to!(args => args@[0]));
    assert(decreases_to!(args => args@[1]));
    let yes = match v {
        Ok(Value::Null) => {
            match eval_arg(args, 2, vars, fl) {
                Some(Err(e)) => {
                    return Err(e);
                },
                Some(Ok(Value::Null)) => {},
                Some(Ok(x)) => {
                    return Ok(x);
                },
                None => {},
            }
            false
        },
        Ok(x) => truthy(&x),
        Err(EvalError::Undefined) => false,
        Err(e) => {
            return Err(e);
        },
    };
    if yes {
        eval(&args[0], vars, fl)
    } else {
        eval(&args[1], vars, fl)
    }
}

/// Whether a filter looks at its arguments.
fn takes_arguments(name: &str) -> (r: bool)
    ensures
        r == (name@ == "trim"@ || name@ == "join"@ || name@ == "replace"@ || name@
            == "regex_replace"@),
{
    same(name, "trim") || same(name, "join") || same(name, "replace") || same(
        name,
        "regex_replace",
    )
}

/// A filter that does not look at its arguments gives the same with none.
proof fn lemma_ignores_arguments(
    name: Seq<char>,
    v: ValueView,
    a0: Option<Outcome>,
    a1: Option<Outcome>,
)
    requires
        name != "trim"@,
        name != "join"@,
        name != "replace"@,
        name != "regex_replace"@,
    ensures
        filtered(name, v, a0, a1) == filtered(name, v, None, None),
{
}

/// Applies a filter to the outcome of its operand.
pub fn apply_filter(
    v: Result<Value, EvalError>,
    name: &str,
    args: &Vec<Ast>,
    vars: &VarMap,
    fl: &FloatTable,
) -> (r: Result<Value, EvalError>)
    ensures
        outcome_of(r) == filter_outcome(
            name@,
            outcome_of(v),
            args@.len(),
            if args@.len() > 0 {
                Some(value_of(args@[0]@, vars@, fl@))
            } else {
                None
            },
            if args@.len() > 1 {
                Some(value_of(args@[1]@, vars@, fl@))
            } else {
                None
            },
            if args@.len() > 2 {
                Some(value_of(args@[2]@, vars@, fl@))
            } else {
                None
            },
        ),
    decreases args, 2nat,
{
    if same(name, "default") || same(name, "d") {
        return eval_default(v, args, vars, fl);
    }
    if same(name, "ternary") {
        if args.len() < 2 || args.len() > 3 {
            return Err(
                EvalError::Unsupported(
                    "filter `ternary` takes 2 or 3 arguments (true, false[, none])".to_owned(),
                ),
            );
        }
        return eval_ternary(v, args, vars, fl);
    }
    let x = match v {
        Ok(x) => x,
        Err(e) => {
            return Err(e);
        },
    };
    if takes_arguments(name) {
        let a0 = eval_arg(args, 0, vars, fl);
        let a1 = eval_arg(args, 1, vars, fl);
        filter_value(name, &x, a0, a1)
    } else {
        proof {
            lemma_ignores_arguments(
                name@,
                x@,
                if args@.len() > 0 {
                    Some(value_of(args@[0]@, vars@, fl@))
                } else {
                    None
                },
                if args@.len() > 1 {
                    Some(value_of(args@[1]@, vars@, fl@))
                } else {
                    None
                },
            );
        }
        filter_value(name, &x, None, None)
    }
}

/// Evaluates an optional part of a slice.
fn opt_eval(o: &Option<Box<Ast>>, vars: &VarMap, fl: &FloatTable) -> (r: Result<
    Option<Value>,
    EvalError,
>)
    ensures
        (match r {
            Ok(v) => Ok(opt_value(v)),
            Err(e) => Err(e@),
        }) == part_value(
            match o {
                Some(x) => Some(value_of((**x)@, vars@, fl@)),
                None => None,
            },
        ),
    decreases o, 0nat,
{
    match o {
        Some(x) => match eval(x, vars, fl) {
            Ok(v) => Ok(Some(v)),
            Err(e) => Err(e),
        },
        None => Ok(None),
    }
}

/// Evaluates a slice.
fn eval_slice(
    base: Result<Value, EvalError>,
    start: &Option<Box<Ast>>,
    stop: &Option<Box<Ast>>,
    step: &Option<Box<Ast>>,
    vars: &VarMap,
    fl: &FloatTable,
    Ghost(whole): Ghost<Ast>,
) -> (r: Result<Value, EvalError>)
    requires
        decreases_to!(whole => *start),
        decreases_to!(whole => *stop),
        decreases_to!(whole => *step),
    ensures
        outcome_of(r) == slice_outcome(
            outcome_of(base),
            match start {
                Some(x) => Some(value_of((**x)@, vars@, fl@)),
                None => None,
            },
            match stop {
                Some(x) => Some(value_of((**x)@, vars@, fl@)),
                None => None,
            },
            match step {
                Some(x) => Some(value_of((**x)@, vars@, fl@)),
                None => None,
            },
        ),
    decreases whole, 0nat,
{
    let c = match base {
        Ok(c) => c,
        Err(e) => {
            return Err(e);
        },
    };
    let a = match opt_eval(start, vars, fl) {
        Ok(a) => a,
        Err(e) => {
            return Err(e);
        },
    };
    let b = match opt_eval(stop, vars, fl) {
        Ok(b) => b,
        Err(e) => {
            return Err(e);
        },
    };
    match opt_eval(step, vars, fl) {
        Ok(s) => slice(&c, &a, &b, &s),
        Err(e) => Err(e),
    }
}

/// Evaluates an expression.
pub fn eval(ast: &Ast, vars: &VarMap, fl: &FloatTable) -> (r: Result<Value, EvalError>)
    ensures
        outcome_of(r) == value_of(ast@, vars@, fl@),
    decreases ast, 3nat,
{
    proof {
        lemma_shape(*ast);
    }
    match ast {
        Ast::Lit(v) => Ok(v.clone()),
        Ast::Var(n) => lookup(vars, n.as_str()),
        Ast::Attr(e, k) => match eval(e, vars, fl) {
            Ok(Value::Dict(o)) => lookup(&o, k.as_str()),
            Ok(_) => Err(EvalError::Undefined),
            Err(x) => Err(x),
        },
        Ast::Index(e, i) => match eval(e, vars, fl) {
            Ok(c) => match eval(i, vars, fl) {
                Ok(k) => index(&c, &k),
                Err(x) => Err(x),
            },
            Err(x) => Err(x),
        },
        Ast::Slice(e, start, stop, step) => {
            let base = eval(e, vars, fl);
            eval_slice(base, start, stop, step, vars, fl, Ghost(*ast))
        },
        Ast::Neg(e) => match eval(e, vars, fl) {
            Ok(v) => negate_value(&v),
            Err(x) => Err(x),
        },
        Ast::Bin(op, l, r) => match eval(l, vars, fl) {
            Ok(x) => match eval(r, vars, fl) {
                Ok(y) => bin_op(fl, *op, &x, &y),
                Err(e) => Err(e),
            },
            Err(e) => Err(e),
        },
        Ast::Not(e) => match truth_of(eval(e, vars, fl)) {
            Ok(b) => Ok(Value::Bool(!b)),
            Err(x) => Err(x),
        },
        Ast::And(l, r) => match truthy_or_undef(eval(l, vars, fl)) {
            Ok(b) => if b {
                bool_value(truthy_or_undef(eval(r, vars, fl)))
            } else {
                Ok(Value::Bool(false))
            },
            Err(x) => Err(x),
        },
        Ast::Or(l, r) => match truthy_or_undef(eval(l, vars, fl)) {
            Ok(b) => if b {
                Ok(Value::Bool(true))
            } else {
                bool_value(truthy_or_undef(eval(r, vars, fl)))
            },
            Err(x) => Err(x),
        },
        Ast::Defined(e, undefined) => defined(eval(e, vars, fl), *undefined),
        Ast::Compare(l, op, r) => match eval(l, vars, fl) {
            Ok(x) => match eval(r, vars, fl) {
                Ok(y) => bool_value(compare(fl, &x, *op, &y)),
                Err(e) => Err(e),
            },
            Err(e) => Err(e),
        },
        Ast::In(l, r, negated) => match eval(l, vars, fl) {
            Ok(x) => match eval(r, vars, fl) {
                Ok(y) => Ok(Value::Bool(contains(&y, &x) != *negated)),
                Err(e) => Err(e),
            },
            Err(e) => Err(e),
        },
        Ast::Filter(e, name, args) => {
            let v = eval(e, vars, fl);
            apply_filter(v, name.as_str(), args, vars, fl)
        },
        Ast::Cond(c, b, o) => match truth_of(eval(c, vars, fl)) {
            Ok(t) => if t {
                eval(b, vars, fl)
            } else {
                match o {
                    Some(e) => eval(e, vars, fl),
                    None => Err(EvalError::Undefined),
                }
            },
            Err(x) => Err(x),
        },
    }
}

// ---------------------------------------------------------------------------------------
// Laws
// ---------------------------------------------------------------------------------------

/// `body if c else orelse` and the filter `ternary` have the value of the branch that is
/// taken; the other branch, whatever it is, does not count.
pub proof fn law_untaken_branches_do_not_count(
    c: AstView,
    taken: AstView,
    other: AstView,
    vars: VarsView,
    fl: Floats,
)
    ensures
        truth(value_of(c, vars, fl)) == Ok::<bool, Fail>(true) ==> value_of(
            AstView::Cond(Box::new(c), Box::new(taken), Some(Box::new(other))),
            vars,
            fl,
        ) == value_of(taken, vars, fl),
        truth(value_of(c, vars, fl)) == Ok::<bool, Fail>(false) ==> value_of(
            AstView::Cond(Box::new(c), Box::new(other), Some(Box::new(taken))),
            vars,
            fl,
        ) == value_of(taken, vars, fl),
        value_of(c, vars, fl) matches Ok(x) && is_true(x) ==> value_of(
            AstView::Filter(Box::new(c), "ternary"@, seq![taken, other]),
            vars,
            fl,
        ) == value_of(taken, vars, fl),
        value_of(c, vars, fl) matches Ok(x) && !is_true(x) ==> value_of(
            AstView::Filter(Box::new(c), "ternary"@, seq![other, taken]),
            vars,
            fl,
        ) == value_of(taken, vars, fl),
        value_of(c, vars, fl) == Err::<ValueView, Fail>(Fail::Undefined) ==> value_of(
            AstView::Filter(Box::new(c), "ternary"@, seq![other, taken]),
            vars,
            fl,
        ) == value_of(taken, vars, fl),
{
    reveal_strlit("default");
    reveal_strlit("d");
    reveal_strlit("ternary");
    assert("ternary"@[0] == 't' && "default"@[0] == 'd' && "d"@[0] == 'd');
}

/// A condition that is false without an `else` has no value.
pub proof fn law_missing_else_is_undefined(c: AstView, b: AstView, vars: VarsView, fl: Floats)
    requires
        truth(value_of(c, vars, fl)) == Ok::<bool, Fail>(false),
    ensures
        value_of(AstView::Cond(Box::new(c), Box::new(b), None), vars, fl) == Err::<
            ValueView,
            Fail,
        >(Fail::Undefined),
{
}

/// The filter `default`, in all its cases. What is undefined becomes the first argument,
/// or the empty text without one. Any other failure stands. A value stands too, unless there
/// is a second argument that is true and the value is not; a second argument that fails,
/// fails.
pub proof fn law_default(e: AstView, name: Seq<char>, args: Seq<AstView>, vars: VarsView, fl: Floats)
    requires
        name == "default"@ || name == "d"@,
    ensures
        ({
            let r = value_of(AstView::Filter(Box::new(e), name, args), vars, fl);
            let fallback = if args.len() == 0 {
                Ok(ValueView::Text(Seq::empty()))
            } else {
                value_of(args[0], vars, fl)
            };
            match value_of(e, vars, fl) {
                Err(Fail::Undefined) => r == fallback,
                Err(f) => r == Err::<ValueView, Fail>(f),
                Ok(v) => if args.len() < 2 {
                    r == Ok::<ValueView, Fail>(v)
                } else {
                    match value_of(args[1], vars, fl) {
                        Err(f) => r == Err::<ValueView, Fail>(f),
                        Ok(b) => r == (if is_true(b) && !is_true(v) {
                            fallback
                        } else {
                            Ok(v)
                        }),
                    }
                },
            }
        }),
{
}

} // verus!
