//! Operators of the expression language: truth, text, subscripts, slices, arithmetic,
//! comparison and membership.

use vstd::prelude::*;
use crate::assoc::{get, holds};
use crate::expr::ast::{BinOp, CompareOp};
use crate::expr::number::{arith, as_num, number_op, number_rank, operand, outcome_of, rank_numbers, runtime, EvalError, Fail, FloatTable, Floats, Outcome, Rank};
use crate::text::{chars_of, dec, dec_i64, dec_u64, join2, occurs, same, text_has, text_le, text_not_after, text_of, text_of_char};
use crate::value::{as_i64, is_zero_text, lemma_list_view, same_value, values, zero_text, Number, Value, ValueView};

verus! {

/// The truth of a value: what is none, false, zero or empty is not true.
pub open spec fn is_true(v: ValueView) -> bool {
    match v {
        ValueView::Null => false,
        ValueView::Bool(b) => b,
        ValueView::Int(i) => i != 0,
        ValueView::Float(t) => !is_zero_text(t),
        ValueView::Text(s) => s.len() > 0,
        ValueView::List(a) => a.len() > 0,
        ValueView::Dict(o) => o.len() > 0,
    }
}

/// Tests the truth of a value.
pub fn truthy(v: &Value) -> (r: bool)
    ensures
        r == is_true(v@),
{
    match v {
        Value::Null => false,
        Value::Bool(b) => *b,
        Value::Number(Number::PosInt(n)) => *n != 0,
        Value::Number(Number::NegInt(n)) => *n != 0,
        Value::Number(Number::Float(t)) => !zero_text(t.as_str()),
        Value::Text(s) => !s.as_str().is_empty(),
        Value::List(a) => a.len() > 0,
        Value::Dict(o) => o.len() > 0,
    }
}

/// What a value's kind is called.
pub open spec fn kind_name(v: ValueView) -> Seq<char> {
    match v {
        ValueView::Null => "none"@,
        ValueView::Bool(_) => "bool"@,
        ValueView::Int(_) => "number"@,
        ValueView::Float(_) => "number"@,
        ValueView::Text(_) => "string"@,
        ValueView::List(_) => "list"@,
        ValueView::Dict(_) => "dict"@,
    }
}

/// What a value's kind is called.
pub fn kind_of(v: &Value) -> (r: &'static str)
    ensures
        r@ == kind_name(v@),
{
    match v {
        Value::Null => "none",
        Value::Bool(_) => "bool",
        Value::Number(Number::PosInt(_)) => "number",
        Value::Number(Number::NegInt(_)) => "number",
        Value::Number(Number::Float(_)) => "number",
        Value::Text(_) => "string",
        Value::List(_) => "list",
        Value::Dict(_) => "dict",
    }
}

/// A value as text; lists and dicts have none.
pub open spec fn text_form(v: ValueView) -> Result<Seq<char>, Fail> {
    match v {
        ValueView::Text(s) => Ok(s),
        ValueView::Int(i) => Ok(dec(i)),
        ValueView::Float(t) => Ok(t),
        ValueView::Bool(b) => Ok(
            if b {
                "True"@
            } else {
                "False"@
            },
        ),
        ValueView::Null => Ok("None"@),
        _ => Err(Fail::Runtime("string operation applied to a list/dict"@)),
    }
}

/// What turning a value into text gave.
pub open spec fn text_outcome(r: Result<String, EvalError>) -> Result<Seq<char>, Fail> {
    match r {
        Ok(s) => Ok(s@),
        Err(e) => Err(e@),
    }
}

/// A value as text.
pub fn as_string(v: &Value) -> (r: Result<String, EvalError>)
    ensures
        text_outcome(r) == text_form(v@),
{
    match v {
        Value::Text(s) => Ok(s.clone()),
        Value::Number(Number::PosInt(n)) => Ok(dec_u64(*n)),
        Value::Number(Number::NegInt(n)) => Ok(dec_i64(*n)),
        Value::Number(Number::Float(t)) => Ok(t.clone()),
        Value::Bool(b) => if *b {
            Ok("True".to_owned())
        } else {
            Ok("False".to_owned())
        },
        Value::Null => Ok("None".to_owned()),
        Value::List(_) => Err(runtime("string operation applied to a list/dict")),
        Value::Dict(_) => Err(runtime("string operation applied to a list/dict")),
    }
}

// ---------------------------------------------------------------------------------------
// Subscripts
// ---------------------------------------------------------------------------------------

/// The position an index stands for in a sequence: a negative one counts from the end.
pub open spec fn position(n: int, i: ValueView) -> Option<int> {
    match as_i64(i) {
        Some(i) => {
            let j = if i < 0 {
                i + n
            } else {
                i as int
            };
            if 0 <= j < n {
                Some(j)
            } else {
                None
            }
        },
        None => None,
    }
}

/// An item of a list, a character of a text, or an entry of a dict; undefined where there
/// is none.
pub open spec fn subscript(c: ValueView, i: ValueView) -> Outcome {
    match c {
        ValueView::List(a) => match position(a.len() as int, i) {
            Some(j) => Ok(a[j]),
            None => Err(Fail::Undefined),
        },
        ValueView::Text(s) => match position(s.len() as int, i) {
            Some(j) => Ok(ValueView::Text(seq![s[j]])),
            None => Err(Fail::Undefined),
        },
        ValueView::Dict(o) => match i {
            ValueView::Text(k) => match get(o, k) {
                Some(v) => Ok(v),
                None => Err(Fail::Undefined),
            },
            _ => Err(Fail::Undefined),
        },
        _ => Err(Fail::Undefined),
    }
}

/// The position an index stands for.
fn position_of(n: usize, i: &Value) -> (r: Option<usize>)
    ensures
        match r {
            Some(j) => position(n as int, i@) == Some(j as int) && j < n,
            None => position(n as int, i@) is None,
        },
{
    match i.to_i64() {
        Some(k) => {
            let j: i128 = if k < 0 {
                k as i128 + n as i128
            } else {
                k as i128
            };
            if 0 <= j && j < n as i128 {
                Some(j as usize)
            } else {
                None
            }
        },
        None => None,
    }
}

/// Reads an item.
pub fn index(c: &Value, i: &Value) -> (r: Result<Value, EvalError>)
    ensures
        outcome_of(r) == subscript(c@, i@),
{
    match c {
        Value::List(a) => {
            proof {
                lemma_list_view(*a);
            }
            match position_of(a.len(), i) {
                Some(j) => Ok(a[j].clone()),
                None => Err(EvalError::Undefined),
            }
        },
        Value::Text(s) => {
            let cs = chars_of(s.as_str());
            match position_of(cs.len(), i) {
                Some(j) => Ok(Value::Text(text_of_char(cs[j]))),
                None => Err(EvalError::Undefined),
            }
        },
        Value::Dict(o) => match i {
            Value::Text(k) => match o.get(k.as_str()) {
                Some(v) => Ok(v.clone()),
                None => Err(EvalError::Undefined),
            },
            _ => Err(EvalError::Undefined),
        },
        _ => Err(EvalError::Undefined),
    }
}

// ---------------------------------------------------------------------------------------
// Slices
// ---------------------------------------------------------------------------------------

/// A bound of a slice: missing or none, or an integer.
pub open spec fn slice_bound(v: Option<ValueView>) -> Result<Option<int>, Fail> {
    match v {
        None => Ok(None),
        Some(ValueView::Null) => Ok(None),
        Some(x) => match as_i64(x) {
            Some(i) => Ok(Some(i as int)),
            None => Err(Fail::Undefined),
        },
    }
}

/// A bound brought into `lower..=upper`; a negative one counts from the end first.
pub open spec fn clamped(v: int, len: int, lower: int, upper: int) -> int {
    if v < 0 {
        if v + len < lower {
            lower
        } else {
            v + len
        }
    } else if v > upper {
        upper
    } else {
        v
    }
}

/// How many steps of size `step` there are before `span` is used up.
pub open spec fn step_count(span: int, step: int) -> int {
    if span > 0 {
        (span - 1) / step + 1
    } else {
        0
    }
}

/// The positions a slice selects, as Python selects them: from the start in steps, as long
/// as they are before the stop.
pub open spec fn slice_positions(
    len: int,
    start: Option<int>,
    stop: Option<int>,
    step: Option<int>,
) -> Result<Seq<int>, Fail> {
    let s = match step {
        Some(s) => s,
        None => 1,
    };
    let lower = if s < 0 {
        -1
    } else {
        0
    };
    let upper = if s < 0 {
        len - 1
    } else {
        len
    };
    let a = match start {
        Some(v) => clamped(v, len, lower, upper),
        None => if s < 0 {
            upper
        } else {
            lower
        },
    };
    let b = match stop {
        Some(v) => clamped(v, len, lower, upper),
        None => if s < 0 {
            lower
        } else {
            upper
        },
    };
    if s == 0 {
        Err(Fail::Runtime("slice step cannot be zero"@))
    } else {
        let n = if s > 0 {
            step_count(b - a, s)
        } else {
            step_count(a - b, -s)
        };
        Ok(Seq::new(n as nat, |k: int| a + k * s))
    }
}

/// A slice of a text or a list; nothing else can be sliced.
pub open spec fn sliced(
    c: ValueView,
    start: Option<ValueView>,
    stop: Option<ValueView>,
    step: Option<ValueView>,
) -> Outcome {
    match (slice_bound(start), slice_bound(stop), slice_bound(step)) {
        (Ok(a), Ok(b), Ok(s)) => match c {
            ValueView::Text(t) => match slice_positions(t.len() as int, a, b, s) {
                Ok(ps) => Ok(ValueView::Text(Seq::new(ps.len(), |k: int| t[ps[k]]))),
                Err(e) => Err(e),
            },
            ValueView::List(l) => match slice_positions(l.len() as int, a, b, s) {
                Ok(ps) => Ok(ValueView::List(Seq::new(ps.len(), |k: int| l[ps[k]]))),
                Err(e) => Err(e),
            },
            _ => Err(Fail::Undefined),
        },
        _ => Err(Fail::Undefined),
    }
}

/// What an optional value is.
pub open spec fn opt_value(o: Option<Value>) -> Option<ValueView> {
    match o {
        Some(v) => Some(v@),
        None => None,
    }
}

/// Reads a bound of a slice.
fn bound(v: &Option<Value>) -> (r: Result<Option<i64>, EvalError>)
    ensures
        (match r {
            Ok(Some(i)) => Ok(Some(i as int)),
            Ok(None) => Ok(None),
            Err(e) => Err(e@),
        }) == slice_bound(opt_value(*v)),
        r matches Err(e) ==> e@ == Fail::Undefined,
{
    match v {
        None => Ok(None),
        Some(Value::Null) => Ok(None),
        Some(x) => match x.to_i64() {
            Some(i) => Ok(Some(i)),
            None => Err(EvalError::Undefined),
        },
    }
}

/// Brings a bound into range.
fn clamp_bound(v: i64, len: i128, lower: i128, upper: i128) -> (r: i128)
    requires
        0 <= len <= usize::MAX,
        -1 <= lower <= 0,
        lower <= upper <= len,
        upper >= len - 1,
    ensures
        r == clamped(v as int, len as int, lower as int, upper as int),
        lower <= r <= upper,
{
    if v < 0 {
        if (v as i128) + len < lower {
            lower
        } else {
            v as i128 + len
        }
    } else if v as i128 > upper {
        upper
    } else {
        v as i128
    }
}

/// The `k`-th step is within the span for the counted `k`, and for no other.
proof fn lemma_steps(span: int, step: int, k: int)
    requires
        step > 0,
        k >= 0,
    ensures
        (k * step < span) <==> k < step_count(span, step),
        step_count(span, step) >= 0,
{
    if span > 0 {
        let q = (span - 1) / step;
        let m = (span - 1) % step;
        assert(span - 1 == q * step + m && 0 <= m < step && q >= 0) by (nonlinear_arith)
            requires
                step > 0,
                span >= 1,
                q == (span - 1) / step,
                m == (span - 1) % step,
        ;
        if k <= q {
            assert(k * step <= q * step) by (nonlinear_arith)
                requires
                    k <= q,
                    step > 0,
            ;
        } else {
            assert(k * step >= q * step + step) by (nonlinear_arith)
                requires
                    k >= q + 1,
                    step > 0,
            ;
        }
    } else {
        assert(k * step >= 0) by (nonlinear_arith)
            requires
                k >= 0,
                step > 0,
        ;
    }
}

/// The positions a slice selects.
pub fn slice_indices(
    len: usize,
    start: Option<i64>,
    stop: Option<i64>,
    step: Option<i64>,
) -> (r: Result<Vec<usize>, EvalError>)
    ensures
        (match r {
            Ok(v) => Ok(Seq::new(v@.len(), |k: int| v@[k] as int)),
            Err(e) => Err(e@),
        }) == slice_positions(
            len as int,
            match start {
                Some(i) => Some(i as int),
                None => None,
            },
            match stop {
                Some(i) => Some(i as int),
                None => None,
            },
            match step {
                Some(i) => Some(i as int),
                None => None,
            },
        ),
        r matches Ok(v) ==> forall|k: int| 0 <= k < v@.len() ==> (#[trigger] v@[k]) < len,
{
    let n = len as i128;
    let s: i64 = match step {
        Some(s) => s,
        None => 1,
    };
    if s == 0 {
        return Err(runtime("slice step cannot be zero"));
    }
    let lower: i128 = if s < 0 {
        -1
    } else {
        0
    };
    let upper: i128 = if s < 0 {
        n - 1
    } else {
        n
    };
    let a: i128 = match start {
        Some(v) => clamp_bound(v, n, lower, upper),
        None => if s < 0 {
            upper
        } else {
            lower
        },
    };
    let b: i128 = match stop {
        Some(v) => clamp_bound(v, n, lower, upper),
        None => if s < 0 {
            lower
        } else {
            upper
        },
    };
    let ghost size = if s > 0 {
        s as int
    } else {
        -(s as int)
    };
    let ghost span = if s > 0 {
        b - a
    } else {
        a - b
    };
    let ghost count = step_count(span, size);
    let ghost ps = Seq::new(count as nat, |k: int| a + k * s);
    let mut out: Vec<usize> = Vec::new();
    let mut i: i128 = a;
    proof {
        lemma_steps(span, size, 0);
        assert(0 * s == 0 && 0 * size == 0) by (nonlinear_arith);
    }
    while (s > 0 && i < b) || (s < 0 && i > b)
        invariant
            s != 0,
            n == len,
            -1 <= a <= n,
            -1 <= b <= n,
            s > 0 ==> 0 <= a && 0 <= b,
            s < 0 ==> a < n,
            size == (if s > 0 {
                s as int
            } else {
                -(s as int)
            }),
            span == (if s > 0 {
                b - a
            } else {
                a - b
            }),
            count == step_count(span, size),
            ps == Seq::new(count as nat, |k: int| a + k * s),
            out@.len() <= count,
            i == a + out@.len() * s,
            -0x1_0000_0000_0000_0000 <= i <= 0x2_0000_0000_0000_0000,
            forall|k: int| 0 <= k < out@.len() ==> (#[trigger] out@[k]) < len,
            forall|k: int| 0 <= k < out@.len() ==> (#[trigger] out@[k]) as int == ps[k],
        decreases count - out@.len(),
    {
        let ghost k = out@.len() as int;
        proof {
            lemma_steps(span, size, k);
            assert((s > 0 ==> k * size == k * s) && (s < 0 ==> k * size == -(k * s)))
                by (nonlinear_arith)
                requires
                    s > 0 ==> size == s,
                    s < 0 ==> size == -s,
            ;
            assert((k + 1) * s == k * s + s) by (nonlinear_arith);
            assert(ps[k] == a + k * s);
        }
        assert(0 <= i < n) by {
            if s > 0 {
                assert(i >= a) by (nonlinear_arith)
                    requires
                        i == a + k * s,
                        k >= 0,
                        s > 0,
                ;
            } else {
                assert(i <= a) by (nonlinear_arith)
                    requires
                        i == a + k * s,
                        k >= 0,
                        s < 0,
                ;
            }
        }
        out.push(i as usize);
        i = i + s as i128;
    }
    proof {
        let k = out@.len() as int;
        lemma_steps(span, size, k);
        assert((s > 0 ==> k * size == k * s) && (s < 0 ==> k * size == -(k * s)))
            by (nonlinear_arith)
            requires
                s > 0 ==> size == s,
                s < 0 ==> size == -s,
        ;
        assert(k == count);
        assert(Seq::new(out@.len(), |k: int| out@[k] as int) =~= ps);
    }
    Ok(out)
}

/// The position a valid slice selects is in range.
fn pick_text(cs: &Vec<char>, idxs: &Vec<usize>) -> (r: String)
    requires
        forall|k: int| 0 <= k < idxs@.len() ==> (#[trigger] idxs@[k]) < cs@.len(),
    ensures
        r@ == Seq::new(idxs@.len(), |k: int| cs@[idxs@[k] as int]),
{
    let mut out: Vec<char> = Vec::new();
    let mut i: usize = 0;
    while i < idxs.len()
        invariant
            i <= idxs.len(),
            out@.len() == i,
            forall|k: int| 0 <= k < idxs@.len() ==> (#[trigger] idxs@[k]) < cs@.len(),
            forall|k: int| 0 <= k < i ==> (#[trigger] out@[k]) == cs@[idxs@[k] as int],
        decreases idxs.len() - i,
    {
        out.push(cs[idxs[i]]);
        i += 1;
    }
    assert(out@ =~= Seq::new(idxs@.len(), |k: int| cs@[idxs@[k] as int]));
    text_of(out.as_slice())
}

/// Picks items of a list.
fn pick_items(a: &Vec<Value>, idxs: &Vec<usize>) -> (r: Vec<Value>)
    requires
        forall|k: int| 0 <= k < idxs@.len() ==> (#[trigger] idxs@[k]) < a@.len(),
    ensures
        values(r@) == Seq::new(idxs@.len(), |k: int| values(a@)[idxs@[k] as int]),
{
    let mut out: Vec<Value> = Vec::new();
    let mut i: usize = 0;
    while i < idxs.len()
        invariant
            i <= idxs.len(),
            out@.len() == i,
            forall|k: int| 0 <= k < idxs@.len() ==> (#[trigger] idxs@[k]) < a@.len(),
            forall|k: int| 0 <= k < i ==> (#[trigger] out@[k])@ == a@[idxs@[k] as int]@,
        decreases idxs.len() - i,
    {
        out.push(a[idxs[i]].clone());
        i += 1;
    }
    assert(values(out@) =~= Seq::new(idxs@.len(), |k: int| values(a@)[idxs@[k] as int]));
    out
}

/// Takes a slice.
pub fn slice(c: &Value, start: &Option<Value>, stop: &Option<Value>, step: &Option<Value>) -> (r:
    Result<Value, EvalError>)
    ensures
        outcome_of(r) == sliced(c@, opt_value(*start), opt_value(*stop), opt_value(*step)),
{
    let a = match bound(start) {
        Ok(x) => x,
        Err(e) => {
            return Err(e);
        },
    };
    let b = match bound(stop) {
        Ok(x) => x,
        Err(e) => {
            return Err(e);
        },
    };
    let s = match bound(step) {
        Ok(x) => x,
        Err(e) => {
            return Err(e);
        },
    };
    match c {
        Value::Text(t) => {
            let cs = chars_of(t.as_str());
            match slice_indices(cs.len(), a, b, s) {
                Ok(idxs) => {
                    let r = pick_text(&cs, &idxs);
                    proof {
                        let ps = Seq::new(idxs@.len(), |k: int| idxs@[k] as int);
                        assert(r@ =~= Seq::new(ps.len(), |k: int| t@[ps[k]]));
                    }
                    Ok(Value::Text(r))
                },
                Err(e) => Err(e),
            }
        },
        Value::List(l) => {
            proof {
                lemma_list_view(*l);
            }
            match slice_indices(l.len(), a, b, s) {
                Ok(idxs) => {
                    let r = pick_items(l, &idxs);
                    proof {
                        let ps = Seq::new(idxs@.len(), |k: int| idxs@[k] as int);
                        lemma_list_view(r);
                        assert(values(r@) =~= Seq::new(ps.len(), |k: int| values(l@)[ps[k]]));
                    }
                    Ok(Value::List(r))
                },
                Err(e) => Err(e),
            }
        },
        _ => Err(EvalError::Undefined),
    }
}

// ---------------------------------------------------------------------------------------
// Arithmetic and concatenation
// ---------------------------------------------------------------------------------------

/// A sequence `n` times in a row.
pub open spec fn repeated<A>(s: Seq<A>, n: int) -> Seq<A>
    decreases n,
{
    if n <= 0 {
        Seq::empty()
    } else {
        repeated(s, n - 1) + s
    }
}

/// The integer that a repetition counts by.
pub open spec fn times(v: ValueView) -> Option<int> {
    match as_i64(v) {
        Some(i) => Some(i as int),
        None => None,
    }
}

/// A text or a list repeated, where the operands are that and an integer, in either order.
pub open spec fn repetition(l: ValueView, r: ValueView) -> Option<ValueView> {
    match (l, r) {
        (ValueView::Text(s), _) => match times(r) {
            Some(n) => Some(ValueView::Text(repeated(s, n))),
            None => None,
        },
        (_, ValueView::Text(s)) => match times(l) {
            Some(n) => Some(ValueView::Text(repeated(s, n))),
            None => None,
        },
        (ValueView::List(a), _) => match times(r) {
            Some(n) => Some(ValueView::List(repeated(a, n))),
            None => None,
        },
        (_, ValueView::List(a)) => match times(l) {
            Some(n) => Some(ValueView::List(repeated(a, n))),
            None => None,
        },
        _ => None,
    }
}

/// What an operator gives. `~` joins texts, `+` joins texts or lists, `*` repeats, and
/// everything else is arithmetic.
pub open spec fn binary(fl: Floats, op: BinOp, l: ValueView, r: ValueView) -> Outcome {
    if op == BinOp::Concat {
        match text_form(l) {
            Err(e) => Err(e),
            Ok(a) => match text_form(r) {
                Err(e) => Err(e),
                Ok(b) => Ok(ValueView::Text(a + b)),
            },
        }
    } else if op == BinOp::Add && l is Text && r is Text {
        Ok(ValueView::Text(l->Text_0 + r->Text_0))
    } else if op == BinOp::Add && l is List && r is List {
        Ok(ValueView::List(l->List_0 + r->List_0))
    } else if op == BinOp::Mul && repetition(l, r) is Some {
        Ok(repetition(l, r).unwrap())
    } else {
        match (as_num(l), as_num(r)) {
            (Some(a), Some(b)) => arith(fl, op, a, b),
            _ => Err(
                Fail::Runtime(
                    "unsupported operands for arithmetic: "@ + kind_name(l) + " and "@ + kind_name(
                        r,
                    ),
                ),
            ),
        }
    }
}

/// Repeats a text.
fn repeat_text(s: &str, n: i64) -> (r: String)
    ensures
        r@ == repeated(s@, n as int),
{
    let mut out = String::new();
    let mut i: i64 = 0;
    assert(out@ =~= Seq::<char>::empty());
    while i < n
        invariant
            0 <= i,
            i <= n || i == 0,
            out@ == repeated(s@, i as int),
        decreases n - i,
    {
        out.append(s);
        i += 1;
    }
    out
}

/// Appends copies of values.
fn append_copies(out: &mut Vec<Value>, a: &Vec<Value>)
    ensures
        values(final(out)@) == values(old(out)@) + values(a@),
{
    let ghost before = out@;
    let mut i: usize = 0;
    while i < a.len()
        invariant
            i <= a.len(),
            out@.len() == before.len() + i,
            forall|k: int| 0 <= k < before.len() ==> (#[trigger] out@[k]) == before[k],
            forall|k: int|
                before.len() <= k < out@.len() ==> (#[trigger] out@[k])@ == a@[k - before.len()]@,
        decreases a.len() - i,
    {
        out.push(a[i].clone());
        i += 1;
    }
    assert(values(out@) =~= values(before) + values(a@));
}

/// Repeats a list.
fn repeat_list(a: &Vec<Value>, n: i64) -> (r: Vec<Value>)
    ensures
        values(r@) == repeated(values(a@), n as int),
{
    let mut out: Vec<Value> = Vec::new();
    let mut i: i64 = 0;
    assert(values(out@) =~= Seq::empty());
    while i < n
        invariant
            0 <= i,
            i <= n || i == 0,
            values(out@) == repeated(values(a@), i as int),
        decreases n - i,
    {
        append_copies(&mut out, a);
        i += 1;
    }
    out
}

/// A repeated text, as a value.
fn text_times(s: &String, v: &Value) -> (r: Option<Value>)
    ensures
        opt_value(r) == (match times(v@) {
            Some(n) => Some(ValueView::Text(repeated(s@, n))),
            None => None,
        }),
{
    match v.to_i64() {
        Some(n) => Some(Value::Text(repeat_text(s.as_str(), n))),
        None => None,
    }
}

/// A repeated list, as a value.
fn list_times(a: &Vec<Value>, v: &Value) -> (r: Option<Value>)
    ensures
        opt_value(r) == (match times(v@) {
            Some(n) => Some(ValueView::List(repeated(values(a@), n))),
            None => None,
        }),
{
    match v.to_i64() {
        Some(n) => {
            let out = repeat_list(a, n);
            proof {
                lemma_list_view(out);
            }
            Some(Value::List(out))
        },
        None => None,
    }
}

/// Repeats a text or a list.
fn repeat(l: &Value, r: &Value) -> (res: Option<Value>)
    ensures
        opt_value(res) == repetition(l@, r@),
{
    match (l, r) {
        (Value::Text(s), _) => text_times(s, r),
        (_, Value::Text(s)) => text_times(s, l),
        (Value::List(a), _) => {
            proof {
                lemma_list_view(*a);
            }
            list_times(a, r)
        },
        (_, Value::List(a)) => {
            proof {
                lemma_list_view(*a);
            }
            list_times(a, l)
        },
        _ => None,
    }
}

/// Joins two lists.
fn join_lists(a: &Vec<Value>, b: &Vec<Value>) -> (r: Value)
    ensures
        r@ == ValueView::List(values(a@) + values(b@)),
{
    let mut out: Vec<Value> = Vec::new();
    assert(values(out@) =~= Seq::empty());
    append_copies(&mut out, a);
    append_copies(&mut out, b);
    proof {
        lemma_list_view(out);
        assert(Seq::<ValueView>::empty() + values(a@) + values(b@) =~= values(a@) + values(b@));
    }
    Value::List(out)
}

/// Computes what an operator gives.
pub fn bin_op(fl: &FloatTable, op: BinOp, l: &Value, r: &Value) -> (res: Result<Value, EvalError>)
    ensures
        outcome_of(res) == binary(fl@, op, l@, r@),
{
    if op == BinOp::Concat {
        let a = match as_string(l) {
            Ok(a) => a,
            Err(e) => {
                return Err(e);
            },
        };
        let b = match as_string(r) {
            Ok(b) => b,
            Err(e) => {
                return Err(e);
            },
        };
        return Ok(Value::Text(join2(a.as_str(), b.as_str())));
    }
    if op == BinOp::Add {
        match (l, r) {
            (Value::Text(a), Value::Text(b)) => {
                return Ok(Value::Text(join2(a.as_str(), b.as_str())));
            },
            (Value::List(a), Value::List(b)) => {
                proof {
                    lemma_list_view(*a);
                    lemma_list_view(*b);
                }
                return Ok(join_lists(a, b));
            },
            _ => {},
        }
    }
    if op == BinOp::Mul {
        match repeat(l, r) {
            Some(v) => {
                return Ok(v);
            },
            None => {},
        }
    }
    match (l, r) {
        (Value::Number(a), Value::Number(b)) => {
            let x = operand(a);
            let y = operand(b);
            number_op(fl, op, &x, &y)
        },
        _ => {
            let mut msg = "unsupported operands for arithmetic: ".to_owned();
            msg.append(kind_of(l));
            msg.append(" and ");
            msg.append(kind_of(r));
            Err(EvalError::Runtime(msg))
        },
    }
}

// ---------------------------------------------------------------------------------------
// Comparison and membership
// ---------------------------------------------------------------------------------------

/// How two texts stand to each other.
pub open spec fn text_rank(a: Seq<char>, b: Seq<char>) -> Rank {
    if a == b {
        Rank::Equal
    } else if text_le(a, b) {
        Rank::Less
    } else {
        Rank::Greater
    }
}

/// How two values stand to each other: numbers and texts are ordered, nothing else is.
pub open spec fn rank(fl: Floats, l: ValueView, r: ValueView) -> Result<Option<Rank>, Fail> {
    if as_num(l) is Some && as_num(r) is Some {
        number_rank(fl, l, r)
    } else if l is Text && r is Text {
        Ok(Some(text_rank(l->Text_0, r->Text_0)))
    } else {
        Ok(None)
    }
}

/// A rank that an ordering comparison accepts.
pub open spec fn accepts(op: CompareOp, k: Option<Rank>) -> bool {
    match k {
        Some(Rank::Less) => op == CompareOp::Lt || op == CompareOp::Le,
        Some(Rank::Equal) => op == CompareOp::Le || op == CompareOp::Ge,
        Some(Rank::Greater) => op == CompareOp::Gt || op == CompareOp::Ge,
        None => false,
    }
}

/// What a comparison gives.
pub open spec fn compared(fl: Floats, l: ValueView, op: CompareOp, r: ValueView) -> Result<bool, Fail> {
    if op == CompareOp::Eq {
        Ok(same_value(l, r))
    } else if op == CompareOp::Ne {
        Ok(!same_value(l, r))
    } else {
        match rank(fl, l, r) {
            Ok(k) => Ok(accepts(op, k)),
            Err(e) => Err(e),
        }
    }
}

/// Whether an ordering comparison accepts a rank.
fn accepted(op: CompareOp, k: Option<Rank>) -> (r: bool)
    ensures
        r == accepts(op, k),
{
    match k {
        Some(Rank::Less) => op == CompareOp::Lt || op == CompareOp::Le,
        Some(Rank::Equal) => op == CompareOp::Le || op == CompareOp::Ge,
        Some(Rank::Greater) => op == CompareOp::Gt || op == CompareOp::Ge,
        None => false,
    }
}

/// Compares two values.
pub fn compare(fl: &FloatTable, l: &Value, op: CompareOp, r: &Value) -> (res: Result<
    bool,
    EvalError,
>)
    ensures
        (match res {
            Ok(b) => Ok(b),
            Err(e) => Err(e@),
        }) == compared(fl@, l@, op, r@),
{
    if op == CompareOp::Eq {
        return Ok(l.same_as(r));
    }
    if op == CompareOp::Ne {
        return Ok(!l.same_as(r));
    }
    let k = match (l, r) {
        (Value::Number(a), Value::Number(b)) => match rank_numbers(fl, a, b) {
            Ok(k) => k,
            Err(e) => {
                return Err(e);
            },
        },
        (Value::Text(a), Value::Text(b)) => if same(a.as_str(), b.as_str()) {
            Some(Rank::Equal)
        } else if text_not_after(a.as_str(), b.as_str()) {
            Some(Rank::Less)
        } else {
            Some(Rank::Greater)
        },
        _ => None,
    };
    Ok(accepted(op, k))
}

/// Some item of a list equals a value.
pub open spec fn has_item(a: Seq<ValueView>, n: ValueView) -> bool {
    exists|i: int| 0 <= i < a.len() && same_value(#[trigger] a[i], n)
}

/// Membership: an item of a list, a part of a text, or a key of a dict.
pub open spec fn is_in(n: ValueView, h: ValueView) -> bool {
    match h {
        ValueView::List(a) => has_item(a, n),
        ValueView::Text(s) => match n {
            ValueView::Text(t) => occurs(s, t),
            _ => false,
        },
        ValueView::Dict(o) => match n {
            ValueView::Text(k) => holds(o, k),
            _ => false,
        },
        _ => false,
    }
}

/// Searches a list for a value.
fn list_contains(a: &Vec<Value>, n: &Value) -> (r: bool)
    ensures
        r == has_item(values(a@), n@),
{
    let mut i: usize = 0;
    while i < a.len()
        invariant
            i <= a.len(),
            forall|j: int| 0 <= j < i ==> !same_value(#[trigger] values(a@)[j], n@),
        decreases a.len() - i,
    {
        if a[i].same_as(n) {
            assert(same_value(values(a@)[i as int], n@));
            return true;
        }
        i += 1;
    }
    false
}

/// Tests membership.
pub fn contains(h: &Value, n: &Value) -> (r: bool)
    ensures
        r == is_in(n@, h@),
{
    match h {
        Value::List(a) => {
            proof {
                lemma_list_view(*a);
            }
            list_contains(a, n)
        },
        Value::Text(s) => match n {
            Value::Text(t) => text_has(s.as_str(), t.as_str()),
            _ => false,
        },
        Value::Dict(o) => match n {
            Value::Text(k) => o.contains_key(k.as_str()),
            _ => false,
        },
        _ => false,
    }
}

// ---------------------------------------------------------------------------------------
// Laws
// ---------------------------------------------------------------------------------------

/// A slice fails for a step of 0 alone. Every position that it selects is one of the text
/// or list, and each is a step behind the one before.
pub proof fn law_slices_stay_inside(
    len: int,
    start: Option<int>,
    stop: Option<int>,
    step: Option<int>,
    k: int,
)
    requires
        len >= 0,
    ensures
        slice_positions(len, start, stop, step) is Ok <==> step != Some(0int),
        step != Some(0int) && 0 <= k < slice_positions(len, start, stop, step)->Ok_0.len() ==> 0
            <= slice_positions(len, start, stop, step)->Ok_0[k] < len,
        step != Some(0int) && 0 < k < slice_positions(len, start, stop, step)->Ok_0.len()
            ==> slice_positions(len, start, stop, step)->Ok_0[k] - slice_positions(
            len,
            start,
            stop,
            step,
        )->Ok_0[k - 1] == (match step {
            Some(s) => s,
            None => 1,
        }),
{
    let s = match step {
        Some(s) => s,
        None => 1,
    };
    let lower = if s < 0 {
        -1
    } else {
        0
    };
    let upper = if s < 0 {
        len - 1
    } else {
        len
    };
    let a = match start {
        Some(v) => clamped(v, len, lower, upper),
        None => if s < 0 {
            upper
        } else {
            lower
        },
    };
    let b = match stop {
        Some(v) => clamped(v, len, lower, upper),
        None => if s < 0 {
            lower
        } else {
            upper
        },
    };
    if s != 0 && 0 <= k < slice_positions(len, start, stop, step)->Ok_0.len() {
        if s > 0 {
            lemma_position_in_range(b - a, s, k);
        } else {
            lemma_position_in_range(a - b, -s, k);
            assert(k * (-s) == -(k * s)) by (nonlinear_arith);
        }
        assert((k - 1) * s == k * s - s) by (nonlinear_arith);
    }
}

proof fn lemma_position_in_range(span: int, step: int, k: int)
    requires
        step > 0,
        0 <= k < step_count(span, step),
    ensures
        0 <= k * step < span,
{
    let q = (span - 1) / step;
    assert(k <= q);
    assert(q * step <= span - 1) by (nonlinear_arith)
        requires
            q == (span - 1) / step,
            step > 0,
            span > 0,
    ;
    assert(0 <= k * step <= q * step) by (nonlinear_arith)
        requires
            0 <= k <= q,
            step > 0,
    ;
}

/// A slice without bounds is the whole, and one with step -1 the whole backwards.
pub proof fn law_whole_slices(l: Seq<ValueView>)
    ensures
        sliced(ValueView::List(l), None, None, None) == Ok::<ValueView, Fail>(ValueView::List(l)),
        sliced(ValueView::List(l), None, None, Some(ValueView::Int(-1))) == Ok::<ValueView, Fail>(
            ValueView::List(Seq::new(l.len(), |k: int| l[l.len() - 1 - k])),
        ),
{
    let n = l.len() as int;
    assert(step_count(n, 1) == n);
    let ps = slice_positions(n, None, None, None)->Ok_0;
    assert(Seq::new(ps.len(), |k: int| l[ps[k]]) =~= l);
    let qs = slice_positions(n, None, None, Some(-1))->Ok_0;
    assert(Seq::new(qs.len(), |k: int| l[qs[k]]) =~= Seq::new(
        l.len(),
        |k: int| l[l.len() - 1 - k],
    ));
}

} // verus!
