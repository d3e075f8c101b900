//! Expressions: a small, exactly delimited part of the Jinja2 expression language, for
//! inventories that are constructed from variables.
//!
//! Failures are of three kinds. What is undefined, and what fails at run time, is passed
//! over unless an expression is strict; syntax outside of the grammar is always an error,
//! which names the expression.

pub mod ast;
pub mod eval;
pub mod filter_laws;
pub mod filters;
pub mod grammar_laws;
pub mod number;
pub mod operator_laws;
pub mod ops;
pub mod parser;
pub mod questions;
pub mod syntax_laws;
pub mod token;

use vstd::prelude::*;
use crate::expr::eval::{eval, value_of};
use crate::expr::filter_laws::lemma_trim_around;
use crate::expr::grammar_laws::is_name;
use crate::expr::number::{outcome_of, EvalError, Fail, FloatQuery, FloatQueryView, FloatTable, Floats, Outcome};
use crate::expr::ops::{is_true, truthy};
use crate::expr::parser::{parse, parsed};
use crate::expr::syntax_laws::is_reserved;
use crate::text::{chars_of, debug_str, debug_text, dec, dec_i64, dec_u64, digit, is_digit, is_letter, is_space, letter, same, shows_plain, trim, trim_text};
use crate::value::{Number, Value, ValueView, VarMap, VarsView};

verus! {

/// An expression that cannot be evaluated, in words.
#[derive(Debug)]
pub struct ExprError(pub String);

/// Why an evaluation stopped.
#[derive(Debug)]
pub enum EvalStop {
    /// The expression is wrong.
    Error(ExprError),
    /// A question about floats has to be answered first.
    NeedFloat(FloatQuery),
    /// Integer arithmetic left 64 bits.
    Overflow,
}

/// What a stop is.
pub enum Stop {
    Error(Seq<char>),
    NeedFloat(FloatQueryView),
    Overflow,
}

impl View for EvalStop {
    type V = Stop;

    open spec fn view(&self) -> Stop {
        match self {
            EvalStop::Error(e) => Stop::Error(e.0@),
            EvalStop::NeedFloat(q) => Stop::NeedFloat(q@),
            EvalStop::Overflow => Stop::Overflow,
        }
    }
}

/// The outcome of an expression as it is written.
pub open spec fn evaluated(src: Seq<char>, vars: VarsView, fl: Floats) -> Outcome {
    match parsed(src) {
        Err(m) => Err(Fail::Unsupported(m)),
        Ok(a) => value_of(a, vars, fl),
    }
}

/// An error about an expression.
pub open spec fn about(src: Seq<char>, msg: Seq<char>) -> Stop {
    Stop::Error(debug_text(src) + ": "@ + msg)
}

/// An outcome where what is undefined or fails is passed over.
pub open spec fn lenient(src: Seq<char>, o: Outcome) -> Result<Option<ValueView>, Stop> {
    match o {
        Ok(v) => Ok(Some(v)),
        Err(Fail::Undefined) => Ok(None),
        Err(Fail::Runtime(_)) => Ok(None),
        Err(Fail::Unsupported(m)) => Err(about(src, m)),
        Err(Fail::NeedFloat(q)) => Err(Stop::NeedFloat(q)),
        Err(Fail::Overflow) => Err(Stop::Overflow),
    }
}

/// An outcome where everything that has no value is an error.
pub open spec fn strictly(src: Seq<char>, o: Outcome) -> Result<Option<ValueView>, Stop> {
    match o {
        Err(Fail::Undefined) => Err(about(src, "result is undefined"@)),
        Err(Fail::Runtime(m)) => Err(about(src, m)),
        _ => lenient(src, o),
    }
}

/// An expression that is the name of a variable and nothing else, white space aside.
pub open spec fn is_bare(src: Seq<char>) -> bool {
    let s = trim(src);
    &&& s.len() > 0
    &&& is_letter(s[0]) || s[0] == '_'
    &&& forall|i: int|
        0 <= i < s.len() ==> is_letter(#[trigger] s[i]) || is_digit(s[i]) || s[i] == '_'
    &&& s != "true"@
    &&& s != "True"@
    &&& s != "false"@
    &&& s != "False"@
    &&& s != "none"@
    &&& s != "None"@
    &&& s != "null"@
    &&& s != "and"@
    &&& s != "or"@
    &&& s != "not"@
}

/// A computed value as it is assigned: a number becomes its text, and none the empty text.
pub open spec fn coerced(v: ValueView) -> ValueView {
    match v {
        ValueView::Int(i) => ValueView::Text(dec(i)),
        ValueView::Float(t) => ValueView::Text(t),
        ValueView::Null => ValueView::Text(Seq::empty()),
        other => other,
    }
}

/// What an expression assigns: a bare variable keeps its type, a computed value is coerced.
pub open spec fn composed(src: Seq<char>, vars: VarsView, strict: bool, fl: Floats) -> Result<
    Option<ValueView>,
    Stop,
> {
    let o = evaluated(src, vars, fl);
    let r = if strict {
        strictly(src, o)
    } else {
        lenient(src, o)
    };
    match r {
        Ok(Some(v)) => Ok(
            Some(
                if is_bare(src) {
                    v
                } else {
                    coerced(v)
                },
            ),
        ),
        r => r,
    }
}

/// What an evaluation gave.
pub open spec fn result_of(r: Result<Option<Value>, EvalStop>) -> Result<Option<ValueView>, Stop> {
    match r {
        Ok(Some(v)) => Ok(Some(v@)),
        Ok(None) => Ok(None),
        Err(e) => Err(e@),
    }
}

/// Evaluates an expression as it is written.
fn evaluate(src: &str, vars: &VarMap, fl: &FloatTable) -> (r: Result<Value, EvalError>)
    ensures
        outcome_of(r) == evaluated(src@, vars@, fl@),
{
    match parse(src) {
        Ok(ast) => eval(&ast, vars, fl),
        Err(m) => Err(EvalError::Unsupported(m)),
    }
}

/// An error about an expression.
fn error_about(src: &str, msg: &str) -> (r: EvalStop)
    ensures
        r@ == about(src@, msg@),
{
    let mut out = debug_str(src);
    out.append(": ");
    out.append(msg);
    EvalStop::Error(ExprError(out))
}

/// Passes over what is undefined or fails.
fn pass_over(src: &str, o: Result<Value, EvalError>) -> (r: Result<Option<Value>, EvalStop>)
    ensures
        result_of(r) == lenient(src@, outcome_of(o)),
{
    match o {
        Ok(v) => Ok(Some(v)),
        Err(EvalError::Undefined) => Ok(None),
        Err(EvalError::Runtime(_)) => Ok(None),
        Err(EvalError::Unsupported(m)) => Err(error_about(src, m.as_str())),
        Err(EvalError::NeedFloat(q)) => Err(EvalStop::NeedFloat(q)),
        Err(EvalError::Overflow) => Err(EvalStop::Overflow),
    }
}

/// Evaluates a key: `None` where it is undefined or fails.
pub fn eval_key(src: &str, vars: &VarMap, fl: &FloatTable) -> (r: Result<Option<Value>, EvalStop>)
    ensures
        result_of(r) == lenient(src@, evaluated(src@, vars@, fl@)),
{
    pass_over(src, evaluate(src, vars, fl))
}

/// Evaluates a condition: false where it is undefined or fails.
pub fn eval_condition(src: &str, vars: &VarMap, fl: &FloatTable) -> (r: Result<bool, EvalStop>)
    ensures
        (match r {
            Ok(b) => Ok(b),
            Err(e) => Err(e@),
        }) == (match lenient(src@, evaluated(src@, vars@, fl@)) {
            Ok(Some(v)) => Ok(is_true(v)),
            Ok(None) => Ok(false),
            Err(e) => Err(e),
        }),
{
    match eval_key(src, vars, fl) {
        Ok(Some(v)) => Ok(truthy(&v)),
        Ok(None) => Ok(false),
        Err(e) => Err(e),
    }
}

/// Whether every character may stand in a plain name.
fn name_chars(cs: &Vec<char>) -> (r: bool)
    ensures
        r == forall|i: int|
            0 <= i < cs@.len() ==> is_letter(#[trigger] cs@[i]) || is_digit(cs@[i]) || cs@[i]
                == '_',
{
    let mut i: usize = 0;
    while i < cs.len()
        invariant
            i <= cs.len(),
            forall|j: int|
                0 <= j < i ==> is_letter(#[trigger] cs@[j]) || is_digit(cs@[j]) || cs@[j] == '_',
        decreases cs.len() - i,
    {
        if !(letter(cs[i]) || digit(cs[i]) || cs[i] == '_') {
            return false;
        }
        i += 1;
    }
    true
}

/// Whether an expression is the name of a variable and nothing else.
pub fn is_bare_var(src: &str) -> (r: bool)
    ensures
        r == is_bare(src@),
{
    let t = trim_text(src);
    let s = t.as_str();
    let cs = chars_of(s);
    cs.len() > 0 && (letter(cs[0]) || cs[0] == '_') && name_chars(&cs) && !same(s, "true")
        && !same(s, "True") && !same(s, "false") && !same(s, "False") && !same(s, "none")
        && !same(s, "None") && !same(s, "null") && !same(s, "and") && !same(s, "or") && !same(
        s,
        "not",
    )
}

/// A computed value as it is assigned.
pub fn coerce_computed(v: Value) -> (r: Value)
    ensures
        r@ == coerced(v@),
{
    match v {
        Value::Number(Number::PosInt(n)) => Value::Text(dec_u64(n)),
        Value::Number(Number::NegInt(n)) => Value::Text(dec_i64(n)),
        Value::Number(Number::Float(t)) => Value::Text(t),
        Value::Null => {
            let none = String::new();
            assert(none@ =~= Seq::<char>::empty());
            Value::Text(none)
        },
        other => other,
    }
}

/// Evaluates what a variable is to be set to: `None` where the variable stays unset.
pub fn eval_compose(src: &str, vars: &VarMap, strict: bool, fl: &FloatTable) -> (r: Result<
    Option<Value>,
    EvalStop,
>)
    ensures
        result_of(r) == composed(src@, vars@, strict, fl@),
{
    let o = evaluate(src, vars, fl);
    let r = match o {
        Err(EvalError::Undefined) if strict => Err(error_about(src, "result is undefined")),
        Err(EvalError::Runtime(m)) if strict => Err(error_about(src, m.as_str())),
        o => pass_over(src, o),
    };
    match r {
        Ok(Some(v)) => if is_bare_var(src) {
            Ok(Some(v))
        } else {
            Ok(Some(coerce_computed(v)))
        },
        r => r,
    }
}

// ---------------------------------------------------------------------------------------
// Laws
// ---------------------------------------------------------------------------------------

/// Syntax outside of the grammar is an error that names the expression, whatever the
/// variables are and whether or not the expression is strict.
pub proof fn law_unsupported_is_an_error(
    src: Seq<char>,
    vars: VarsView,
    strict: bool,
    fl: Floats,
)
    requires
        parsed(src) is Err,
    ensures
        lenient(src, evaluated(src, vars, fl)) == Err::<Option<ValueView>, Stop>(
            about(src, parsed(src)->Err_0),
        ),
        composed(src, vars, strict, fl) == Err::<Option<ValueView>, Stop>(
            about(src, parsed(src)->Err_0),
        ),
{
}

/// What is undefined or fails leaves a variable unset, and is an error where the
/// expression is strict.
pub proof fn law_strict(src: Seq<char>, vars: VarsView, fl: Floats)
    requires
        evaluated(src, vars, fl) matches Err(e) && (e is Undefined || e is Runtime),
    ensures
        composed(src, vars, false, fl) == Ok::<Option<ValueView>, Stop>(None),
        composed(src, vars, true, fl) matches Err(Stop::Error(_)),
{
}

/// A computed value is never assigned as a number or as none.
pub proof fn law_computed_values(v: ValueView)
    ensures
        !(coerced(v) is Int),
        !(coerced(v) is Float),
        !(coerced(v) is Null),
        coerced(coerced(v)) == coerced(v),
{
}

/// An expression that is a bare variable is assigned with its type kept; any other has its
/// value coerced.
pub proof fn law_bare_variables_keep_their_type(
    src: Seq<char>,
    vars: VarsView,
    strict: bool,
    fl: Floats,
    v: ValueView,
)
    requires
        evaluated(src, vars, fl) == Ok::<ValueView, Fail>(v),
    ensures
        composed(src, vars, strict, fl) == Ok::<Option<ValueView>, Stop>(
            Some(
                if is_bare(src) {
                    v
                } else {
                    coerced(v)
                },
            ),
        ),
{
}

/// A computed number is assigned as its text, none as the empty text, and any other value
/// as it is.
pub proof fn law_computed_texts(v: ValueView, i: int, t: Seq<char>)
    ensures
        coerced(ValueView::Int(i)) == ValueView::Text(dec(i)),
        coerced(ValueView::Float(t)) == ValueView::Text(t),
        coerced(ValueView::Null) == ValueView::Text(Seq::empty()),
        !(v is Int) && !(v is Float) && !(v is Null) ==> coerced(v) == v,
{
}

/// A bare variable is a name with or without white space around it, the constants and the
/// operators that are words aside.
pub proof fn law_bare_names(w: Seq<char>, x: Seq<char>, v: Seq<char>)
    requires
        forall|k: int| 0 <= k < w.len() ==> is_space(#[trigger] w[k]),
        forall|k: int| 0 <= k < v.len() ==> is_space(#[trigger] v[k]),
        x.len() > 0,
        !is_space(x[0]),
        !is_space(x.last()),
    ensures
        is_bare(w + x + v) <==> is_name(x) && !is_reserved(x) && x != "and"@ && x != "or"@,
{
    lemma_trim_around(w, x, v);
    if is_bare(w + x + v) {
        assert(is_letter(x[0]) || x[0] == '_');
    }
    if is_name(x) {
        assert(is_letter(x[0]) || is_digit(x[0]) || x[0] == '_');
    }
}

/// An error about an expression holds the expression: between double quotes and as it is
/// written, where it is printable ASCII without double quotes and backslashes.
pub proof fn law_errors_name_the_expression(src: Seq<char>, msg: Seq<char>)
    requires
        forall|k: int|
            0 <= k < src.len() ==> ' ' <= #[trigger] src[k] <= '~' && src[k] != '"' && src[k]
                != '\\',
    ensures
        about(src, msg) == Stop::Error(seq!['"'] + src + seq!['"'] + ": "@ + msg),
{
    assert forall|k: int| 0 <= k < src.len() implies shows_plain(#[trigger] src[k]) by {}
}

} // verus!
