//! Numbers in expressions.
//!
//! Arithmetic on integers is exact, and what leaves 64 bits is an overflow; order compares
//! numbers as floats.
//! Operations on floats are not computed here: the evaluator asks for them, and takes the
//! answers from a table.

use vstd::prelude::*;
use vstd::arithmetic::power::{lemma_pow0, pow};
use crate::expr::ast::BinOp;
use crate::text::{chars_of, dec, dec_i64, dec_u64, join2, same, text_span};
use crate::value::{float_text, int_value, is_zero_text, read_float, zero_text, Number, Value, ValueView};

verus! {

// ---------------------------------------------------------------------------------------
// Questions about floats
// ---------------------------------------------------------------------------------------

/// What can be asked of two floats.
#[derive(Debug, Clone, Copy, PartialEq, Eq, Structural)]
pub enum FloatOp {
    Add,
    Sub,
    Mul,
    Div,
    FloorDiv,
    Mod,
    Pow,
    Order,
}

/// A question about two floats, given by their texts.
#[derive(Debug)]
pub struct FloatQuery {
    pub op: FloatOp,
    pub left: String,
    pub right: String,
}

/// What a question is.
pub struct FloatQueryView {
    pub op: FloatOp,
    pub left: Seq<char>,
    pub right: Seq<char>,
}

impl View for FloatQuery {
    type V = FloatQueryView;

    open spec fn view(&self) -> FloatQueryView {
        FloatQueryView { op: self.op, left: self.left@, right: self.right@ }
    }
}

/// An answer: the text of a finite result, that the result is not finite, or an order.
#[derive(Debug)]
pub enum FloatAnswer {
    Finite(String),
    NonFinite,
    Less,
    Equal,
    Greater,
}

/// What an answer is.
pub enum FloatAnswerView {
    Finite(Seq<char>),
    NonFinite,
    Less,
    Equal,
    Greater,
}

impl View for FloatAnswer {
    type V = FloatAnswerView;

    open spec fn view(&self) -> FloatAnswerView {
        match self {
            FloatAnswer::Finite(t) => FloatAnswerView::Finite(t@),
            FloatAnswer::NonFinite => FloatAnswerView::NonFinite,
            FloatAnswer::Less => FloatAnswerView::Less,
            FloatAnswer::Equal => FloatAnswerView::Equal,
            FloatAnswer::Greater => FloatAnswerView::Greater,
        }
    }
}

/// The answers that are known.
#[derive(Debug)]
pub struct FloatTable {
    entries: Vec<(FloatQuery, FloatAnswer)>,
}

/// What a table of answers holds, the latest last.
pub type Floats = Seq<(FloatQueryView, FloatAnswerView)>;

impl View for FloatTable {
    type V = Floats;

    closed spec fn view(&self) -> Floats {
        Seq::new(self.entries@.len(), |i: int| (self.entries@[i].0@, self.entries@[i].1@))
    }
}

/// The latest answer to a question.
pub open spec fn answer(fl: Floats, q: FloatQueryView) -> Option<FloatAnswerView>
    decreases fl.len(),
{
    if fl.len() == 0 {
        None
    } else if fl.last().0 == q {
        Some(fl.last().1)
    } else {
        answer(fl.drop_last(), q)
    }
}

impl FloatTable {
    /// A table without answers.
    pub fn new() -> (r: FloatTable)
        ensures
            r@ == Floats::empty(),
    {
        let r = FloatTable { entries: Vec::new() };
        assert(r@ =~= Floats::empty());
        r
    }

    /// Adds an answer.
    pub fn learn(&mut self, q: FloatQuery, a: FloatAnswer)
        ensures
            final(self)@ == old(self)@.push((q@, a@)),
    {
        let ghost before = self@;
        self.entries.push((q, a));
        assert(self@ =~= before.push((q@, a@)));
    }

    /// The latest answer to a question.
    fn find(&self, op: FloatOp, left: &str, right: &str) -> (r: Option<&FloatAnswer>)
        ensures
            (match r {
                Some(a) => Some(a@),
                None => None,
            }) == answer(self@, FloatQueryView { op, left: left@, right: right@ }),
    {
        let ghost q = FloatQueryView { op, left: left@, right: right@ };
        let mut i: usize = self.entries.len();
        assert(self@.take(i as int) =~= self@);
        while i > 0
            invariant
                i <= self.entries@.len(),
                self@.len() == self.entries@.len(),
                q == (FloatQueryView { op, left: left@, right: right@ }),
                answer(self@, q) == answer(self@.take(i as int), q),
            decreases i,
        {
            i -= 1;
            proof {
                assert(self@.take(i + 1).drop_last() =~= self@.take(i as int));
                assert(self@.take(i + 1).last() == self@[i as int]);
            }
            let e = &self.entries[i];
            if e.0.op == op && same(e.0.left.as_str(), left) && same(e.0.right.as_str(), right) {
                return Some(&e.1);
            }
        }
        None
    }
}

// ---------------------------------------------------------------------------------------
// Failures
// ---------------------------------------------------------------------------------------

/// Why an evaluation has no value.
#[derive(Debug)]
pub enum EvalError {
    /// A variable, attribute or item that is not there.
    Undefined,
    /// An operation that its operands do not allow.
    Runtime(String),
    /// Syntax that is not supported.
    Unsupported(String),
    /// A question about floats that the table does not answer.
    NeedFloat(FloatQuery),
    /// Integer arithmetic that leaves 64 bits.
    Overflow,
}

/// What a failure is.
pub enum Fail {
    Undefined,
    Runtime(Seq<char>),
    Unsupported(Seq<char>),
    NeedFloat(FloatQueryView),
    Overflow,
}

impl View for EvalError {
    type V = Fail;

    open spec fn view(&self) -> Fail {
        match self {
            EvalError::Undefined => Fail::Undefined,
            EvalError::Runtime(m) => Fail::Runtime(m@),
            EvalError::Unsupported(m) => Fail::Unsupported(m@),
            EvalError::NeedFloat(q) => Fail::NeedFloat(q@),
            EvalError::Overflow => Fail::Overflow,
        }
    }
}

/// The outcome of an evaluation.
pub type Outcome = Result<ValueView, Fail>;

/// What an evaluation gave.
pub open spec fn outcome_of(r: Result<Value, EvalError>) -> Outcome {
    match r {
        Ok(v) => Ok(v@),
        Err(e) => Err(e@),
    }
}

/// A runtime failure.
pub fn runtime(msg: &str) -> (r: EvalError)
    ensures
        r@ == Fail::Runtime(msg@),
{
    EvalError::Runtime(msg.to_owned())
}

// ---------------------------------------------------------------------------------------
// Arithmetic
// ---------------------------------------------------------------------------------------

/// A number as an operand: an integer of 64 bits, or a float by its text.
pub enum Num {
    I(int),
    F(Seq<char>),
}

/// The text of the float next to an integer.
pub open spec fn float_of(i: int) -> Seq<char> {
    match float_text(dec(i)) {
        Some(Some(t)) => t,
        _ => Seq::empty(),
    }
}

/// A value as an operand; an integer beyond `i64` is taken for a float.
pub open spec fn as_num(v: ValueView) -> Option<Num> {
    match v {
        ValueView::Int(i) => if i64::MIN <= i <= i64::MAX {
            Some(Num::I(i))
        } else {
            Some(Num::F(float_of(i)))
        },
        ValueView::Float(t) => Some(Num::F(t)),
        _ => None,
    }
}

/// An operand as a float.
pub open spec fn operand_text(n: Num) -> Seq<char> {
    match n {
        Num::I(i) => float_of(i),
        Num::F(t) => t,
    }
}

/// An operand that is zero.
pub open spec fn is_zero(n: Num) -> bool {
    match n {
        Num::I(i) => i == 0,
        Num::F(t) => is_zero_text(t),
    }
}

/// An integer result, where 64 bits hold it.
pub open spec fn int_result(i: int) -> Outcome {
    if i64::MIN <= i <= i64::MAX {
        Ok(ValueView::Int(i))
    } else {
        Err(Fail::Overflow)
    }
}

/// A float result, where the table has it.
pub open spec fn float_result(fl: Floats, op: FloatOp, l: Seq<char>, r: Seq<char>) -> Outcome {
    let q = FloatQueryView { op, left: l, right: r };
    match answer(fl, q) {
        None => Err(Fail::NeedFloat(q)),
        Some(FloatAnswerView::Finite(t)) => Ok(ValueView::Float(t)),
        Some(_) => Err(Fail::Runtime("non-finite numeric result"@)),
    }
}

/// The question about floats that an operator asks.
pub open spec fn float_op(op: BinOp) -> FloatOp {
    match op {
        BinOp::Add => FloatOp::Add,
        BinOp::Sub => FloatOp::Sub,
        BinOp::Mul => FloatOp::Mul,
        BinOp::Div => FloatOp::Div,
        BinOp::FloorDiv => FloatOp::FloorDiv,
        BinOp::Mod => FloatOp::Mod,
        BinOp::Pow => FloatOp::Pow,
        BinOp::Concat => FloatOp::Add,
    }
}

/// The floor of a quotient.
pub open spec fn floor_div(x: int, y: int) -> int {
    if y > 0 {
        x / y
    } else {
        (-x) / (-y)
    }
}

/// What floor division leaves over; it has the sign of the divisor.
pub open spec fn floor_mod(x: int, y: int) -> int {
    x - y * floor_div(x, y)
}

/// Arithmetic on integers, as in Python: exact, where 64 bits hold the result. Division
/// always gives a float, and so does a negative power.
pub open spec fn int_arith(fl: Floats, op: BinOp, a: int, b: int) -> Outcome {
    match op {
        BinOp::Add => int_result(a + b),
        BinOp::Sub => int_result(a - b),
        BinOp::Mul => int_result(a * b),
        BinOp::FloorDiv => if b == 0 {
            Err(Fail::Runtime("division by zero"@))
        } else {
            int_result(floor_div(a, b))
        },
        BinOp::Mod => if b == 0 {
            Err(Fail::Runtime("modulo by zero"@))
        } else {
            int_result(floor_mod(a, b))
        },
        BinOp::Pow => if b >= 0 {
            int_result(pow(a, b as nat))
        } else {
            float_result(fl, FloatOp::Pow, float_of(a), float_of(b))
        },
        _ => if b == 0 {
            Err(Fail::Runtime("division by zero"@))
        } else {
            float_result(fl, FloatOp::Div, float_of(a), float_of(b))
        },
    }
}

/// Arithmetic where an operand is a float.
pub open spec fn float_arith(fl: Floats, op: BinOp, l: Num, r: Num) -> Outcome {
    if (op == BinOp::Div || op == BinOp::FloorDiv) && is_zero(r) {
        Err(Fail::Runtime("division by zero"@))
    } else if op == BinOp::Mod && is_zero(r) {
        Err(Fail::Runtime("modulo by zero"@))
    } else {
        float_result(fl, float_op(op), operand_text(l), operand_text(r))
    }
}

/// Arithmetic on numbers.
pub open spec fn arith(fl: Floats, op: BinOp, l: Num, r: Num) -> Outcome {
    match (l, r) {
        (Num::I(a), Num::I(b)) => int_arith(fl, op, a, b),
        _ => float_arith(fl, op, l, r),
    }
}

/// The text of a float with its sign changed.
pub open spec fn negated_text(t: Seq<char>) -> Seq<char> {
    if t.len() > 0 && t[0] == '-' {
        t.drop_first()
    } else {
        seq!['-'] + t
    }
}

/// The text of a float without its sign.
pub open spec fn unsigned_text(t: Seq<char>) -> Seq<char> {
    if t.len() > 0 && t[0] == '-' {
        t.drop_first()
    } else {
        t
    }
}

/// The negative of a number.
pub open spec fn negated(n: Num) -> Outcome {
    match n {
        Num::I(i) => int_result(-i),
        Num::F(t) => Ok(ValueView::Float(negated_text(t))),
    }
}

/// A number without its sign.
pub open spec fn absolute(n: Num) -> Outcome {
    match n {
        Num::I(i) => int_result(
            if i < 0 {
                -i
            } else {
                i
            },
        ),
        Num::F(t) => Ok(ValueView::Float(unsigned_text(t))),
    }
}

/// An operand.
pub enum Operand {
    I(i64),
    F(String),
}

impl View for Operand {
    type V = Num;

    open spec fn view(&self) -> Num {
        match self {
            Operand::I(i) => Num::I(*i as int),
            Operand::F(t) => Num::F(t@),
        }
    }
}

/// The text of the float next to an integer, given in decimal.
fn float_of_text(d: &str) -> (r: String)
    ensures
        r@ == (match float_text(d@) {
            Some(Some(t)) => t,
            _ => Seq::empty(),
        }),
{
    match read_float(d) {
        Some(Some(t)) => t,
        _ => {
            let r = String::new();
            assert(r@ =~= Seq::<char>::empty());
            r
        },
    }
}

/// A number as an operand.
pub fn operand(n: &Number) -> (r: Operand)
    ensures
        Some(r@) == as_num(Value::Number(*n)@),
{
    match n {
        Number::PosInt(u) => if *u <= 0x7fff_ffff_ffff_ffff {
            Operand::I(*u as i64)
        } else {
            let d = dec_u64(*u);
            Operand::F(float_of_text(d.as_str()))
        },
        Number::NegInt(i) => Operand::I(*i),
        Number::Float(t) => Operand::F(t.clone()),
    }
}

/// An operand as a float.
fn operand_float(n: &Operand) -> (r: String)
    ensures
        r@ == operand_text(n@),
{
    match n {
        Operand::I(i) => {
            let d = dec_i64(*i);
            float_of_text(d.as_str())
        },
        Operand::F(t) => t.clone(),
    }
}

/// An integer result.
fn int_outcome(i: i128) -> (r: Result<Value, EvalError>)
    ensures
        outcome_of(r) == int_result(i as int),
{
    if -0x8000_0000_0000_0000 <= i && i <= 0x7fff_ffff_ffff_ffff {
        Ok(int_value(i as i64))
    } else {
        Err(EvalError::Overflow)
    }
}

/// A float result.
fn float_outcome(fl: &FloatTable, op: FloatOp, l: String, r: String) -> (res: Result<
    Value,
    EvalError,
>)
    ensures
        outcome_of(res) == float_result(fl@, op, l@, r@),
{
    match fl.find(op, l.as_str(), r.as_str()) {
        None => Err(EvalError::NeedFloat(FloatQuery { op, left: l, right: r })),
        Some(FloatAnswer::Finite(t)) => Ok(Value::Number(Number::Float(t.clone()))),
        Some(_) => Err(runtime("non-finite numeric result")),
    }
}

/// What floor division means: the remainder has the sign of the divisor and is smaller.
pub proof fn lemma_floor_div(x: int, y: int, q: int, r: int)
    requires
        y != 0,
        x == q * y + r,
        y > 0 ==> 0 <= r < y,
        y < 0 ==> y < r <= 0,
    ensures
        floor_div(x, y) == q,
        floor_mod(x, y) == r,
{
    if y > 0 {
        assert(x / y == q) by (nonlinear_arith)
            requires
                x == q * y + r,
                0 <= r < y,
        ;
    } else {
        let z = -y;
        assert(-x == q * z + (-r)) by (nonlinear_arith)
            requires
                x == q * y + r,
                z == -y,
        ;
        assert((-x) / z == q) by (nonlinear_arith)
            requires
                -x == q * z + (-r),
                0 <= -r < z,
        ;
    }
    assert(y * q == q * y) by (nonlinear_arith);
}

/// Floor quotient and remainder.
fn floor_parts(x: i64, y: i64) -> (r: (i128, i128))
    requires
        y != 0,
    ensures
        r.0 == floor_div(x as int, y as int),
        r.1 == floor_mod(x as int, y as int),
{
    let a: u128 = if x < 0 {
        (-(x as i128)) as u128
    } else {
        x as u128
    };
    let b: u128 = if y < 0 {
        (-(y as i128)) as u128
    } else {
        y as u128
    };
    let q: u128 = a / b;
    let m: u128 = a % b;
    proof {
        assert(a == q * b + m && m < b && q <= a) by (nonlinear_arith)
            requires
                b > 0,
                q == a / b,
                m == a % b,
        ;
    }
    let alike: bool = (x < 0) == (y < 0);
    let quot: i128 = if alike {
        q as i128
    } else if m == 0 {
        -(q as i128)
    } else {
        -(q as i128) - 1
    };
    let size: i128 = if alike || m == 0 {
        m as i128
    } else {
        b as i128 - m as i128
    };
    let rest: i128 = if y < 0 {
        -size
    } else {
        size
    };
    proof {
        assert(x == quot * y + rest) by (nonlinear_arith)
            requires
                a == q * b + m,
                x < 0 ==> a == -x,
                x >= 0 ==> a == x,
                y < 0 ==> b == -y && rest == -size,
                y > 0 ==> b == y && rest == size,
                y != 0,
                alike == ((x < 0) == (y < 0)),
                alike ==> quot == q && size == m,
                !alike && m == 0 ==> quot == -q && size == 0,
                !alike && m != 0 ==> quot == -q - 1 && size == b - m,
        ;
        lemma_floor_div(x as int, y as int, quot as int, rest as int);
    }
    (quot, rest)
}

/// A power that has left 64 bits stays outside of them.
proof fn lemma_pow_grows(x: int, k: nat, e: nat)
    requires
        x >= 2 || x <= -2,
        k <= e,
        pow(x, k) >= 0x8000_0000_0000_0000 || pow(x, k) < -0x8000_0000_0000_0000,
    ensures
        pow(x, e) >= 0x8000_0000_0000_0000 || pow(x, e) < -0x8000_0000_0000_0000,
    decreases e - k,
{
    reveal(pow);
    if k < e {
        let v = pow(x, k);
        assert(pow(x, (k + 1) as nat) == x * v);
        assert(x * v >= 0x8000_0000_0000_0000 || x * v < -0x8000_0000_0000_0000)
            by (nonlinear_arith)
            requires
                x >= 2 || x <= -2,
                v >= 0x8000_0000_0000_0000 || v < -0x8000_0000_0000_0000,
        ;
        lemma_pow_grows(x, (k + 1) as nat, e);
    }
}

/// Powers of one and of zero.
proof fn lemma_pow_small(x: int, e: nat)
    requires
        -1 <= x <= 1,
    ensures
        pow(x, e) == (if e == 0 {
            1
        } else if x == 0 {
            0
        } else if x == 1 {
            1
        } else if e % 2 == 0 {
            1
        } else {
            -1
        }),
    decreases e,
{
    reveal(pow);
    if e > 0 {
        let p = pow(x, (e - 1) as nat);
        lemma_pow_small(x, (e - 1) as nat);
        assert(pow(x, e) == x * p);
        assert(0 * p == 0 && 1 * p == p && -1 * p == -p) by (nonlinear_arith);
        if x == 0 {
            assert(x * p == 0);
        } else if x == 1 {
            assert(x * p == p);
        } else {
            assert(x * p == -p);
        }
    }
}

/// A power of an integer.
fn int_pow(x: i64, e: u64) -> (r: Result<Value, EvalError>)
    ensures
        outcome_of(r) == int_result(pow(x as int, e as nat)),
{
    if -1 <= x && x <= 1 {
        proof {
            lemma_pow_small(x as int, e as nat);
        }
        return if e == 0 || x == 1 {
            Ok(int_value(1))
        } else if x == 0 {
            Ok(int_value(0))
        } else if e % 2 == 0 {
            Ok(int_value(1))
        } else {
            Ok(int_value(-1))
        };
    }
    let mut acc: i128 = 1;
    let mut k: u64 = 0;
    proof {
        lemma_pow0(x as int);
    }
    while k < e
        invariant
            k <= e,
            x >= 2 || x <= -2,
            acc == pow(x as int, k as nat),
            -0x8000_0000_0000_0000 <= acc < 0x8000_0000_0000_0000,
        decreases e - k,
    {
        proof {
            reveal(pow);
            assert(pow(x as int, (k + 1) as nat) == x * pow(x as int, k as nat));
            assert(-0x4000_0000_0000_0000_0000_0000_0000_0000 <= x * acc
                <= 0x4000_0000_0000_0000_0000_0000_0000_0000) by (nonlinear_arith)
                requires
                    -0x8000_0000_0000_0000 <= acc < 0x8000_0000_0000_0000,
                    -0x8000_0000_0000_0000 <= x < 0x8000_0000_0000_0000,
            ;
        }
        acc = x as i128 * acc;
        k = k + 1;
        if acc < -0x8000_0000_0000_0000 || acc > 0x7fff_ffff_ffff_ffff {
            proof {
                lemma_pow_grows(x as int, k as nat, e as nat);
            }
            return Err(EvalError::Overflow);
        }
    }
    Ok(int_value(acc as i64))
}

/// What a float is asked for, for an operator.
fn float_op_of(op: BinOp) -> (r: FloatOp)
    ensures
        r == float_op(op),
{
    match op {
        BinOp::Add => FloatOp::Add,
        BinOp::Sub => FloatOp::Sub,
        BinOp::Mul => FloatOp::Mul,
        BinOp::Div => FloatOp::Div,
        BinOp::FloorDiv => FloatOp::FloorDiv,
        BinOp::Mod => FloatOp::Mod,
        BinOp::Pow => FloatOp::Pow,
        BinOp::Concat => FloatOp::Add,
    }
}

/// Arithmetic on integers.
fn int_op(fl: &FloatTable, op: BinOp, a: i64, b: i64) -> (r: Result<Value, EvalError>)
    ensures
        outcome_of(r) == int_arith(fl@, op, a as int, b as int),
{
    match op {
        BinOp::Add => int_outcome(a as i128 + b as i128),
        BinOp::Sub => int_outcome(a as i128 - b as i128),
        BinOp::Mul => {
            assert(-0x4000_0000_0000_0000_0000_0000_0000_0000 <= a * b
                <= 0x4000_0000_0000_0000_0000_0000_0000_0000) by (nonlinear_arith)
                requires
                    -0x8000_0000_0000_0000 <= a < 0x8000_0000_0000_0000,
                    -0x8000_0000_0000_0000 <= b < 0x8000_0000_0000_0000,
            ;
            int_outcome(a as i128 * b as i128)
        },
        BinOp::FloorDiv => if b == 0 {
            Err(runtime("division by zero"))
        } else {
            let (q, _) = floor_parts(a, b);
            int_outcome(q)
        },
        BinOp::Mod => if b == 0 {
            Err(runtime("modulo by zero"))
        } else {
            let (_, m) = floor_parts(a, b);
            int_outcome(m)
        },
        BinOp::Pow => if b >= 0 {
            int_pow(a, b as u64)
        } else {
            let l = operand_float(&Operand::I(a));
            let r = operand_float(&Operand::I(b));
            float_outcome(fl, FloatOp::Pow, l, r)
        },
        _ => if b == 0 {
            Err(runtime("division by zero"))
        } else {
            let l = operand_float(&Operand::I(a));
            let r = operand_float(&Operand::I(b));
            float_outcome(fl, FloatOp::Div, l, r)
        },
    }
}

/// Tests an operand for zero.
fn zero_operand(n: &Operand) -> (r: bool)
    ensures
        r == is_zero(n@),
{
    match n {
        Operand::I(i) => *i == 0,
        Operand::F(t) => zero_text(t.as_str()),
    }
}

/// Arithmetic on numbers.
pub fn number_op(fl: &FloatTable, op: BinOp, l: &Operand, r: &Operand) -> (res: Result<
    Value,
    EvalError,
>)
    ensures
        outcome_of(res) == arith(fl@, op, l@, r@),
{
    match (l, r) {
        (Operand::I(a), Operand::I(b)) => {
            return int_op(fl, op, *a, *b);
        },
        _ => {},
    }
    if (op == BinOp::Div || op == BinOp::FloorDiv) && zero_operand(r) {
        return Err(runtime("division by zero"));
    }
    if op == BinOp::Mod && zero_operand(r) {
        return Err(runtime("modulo by zero"));
    }
    float_outcome(fl, float_op_of(op), operand_float(l), operand_float(r))
}

/// A text without its first character where that is a minus, and whether it was.
fn without_minus(t: &str) -> (r: Option<String>)
    ensures
        r is Some <==> t@.len() > 0 && t@[0] == '-',
        r matches Some(s) ==> s@ == t@.drop_first(),
{
    let cs = chars_of(t);
    if cs.len() > 0 && cs[0] == '-' {
        let s = text_span(&cs, 1, cs.len());
        assert(s@ =~= t@.drop_first());
        Some(s)
    } else {
        None
    }
}

/// The negative of a number.
pub fn negate(n: &Operand) -> (r: Result<Value, EvalError>)
    ensures
        outcome_of(r) == negated(n@),
{
    match n {
        Operand::I(i) => int_outcome(-(*i as i128)),
        Operand::F(t) => {
            let s = match without_minus(t.as_str()) {
                Some(s) => s,
                None => join2("-", t.as_str()),
            };
            proof {
                reveal_strlit("-");
                assert("-"@ =~= seq!['-']);
            }
            Ok(Value::Number(Number::Float(s)))
        },
    }
}

/// A number without its sign.
pub fn absolute_of(n: &Operand) -> (r: Result<Value, EvalError>)
    ensures
        outcome_of(r) == absolute(n@),
{
    match n {
        Operand::I(i) => if *i < 0 {
            int_outcome(-(*i as i128))
        } else {
            int_outcome(*i as i128)
        },
        Operand::F(t) => {
            let s = match without_minus(t.as_str()) {
                Some(s) => s,
                None => t.clone(),
            };
            Ok(Value::Number(Number::Float(s)))
        },
    }
}

// ---------------------------------------------------------------------------------------
// The precision of floats
// ---------------------------------------------------------------------------------------

/// The distance between neighbouring floats at the size of `m`; integers below 2^53 are
/// exact.
pub open spec fn float_unit(m: nat) -> nat
    decreases m,
{
    if m < 0x20_0000_0000_0000 {
        1
    } else {
        2 * float_unit(m / 2)
    }
}

/// The multiple of `u` next to `m`; of two, the even one.
pub open spec fn rounded(m: nat, u: nat) -> nat {
    let q = m / u;
    let r = m % u;
    if 2 * r > u || (2 * r == u && q % 2 == 1) {
        (q + 1) * u
    } else {
        q * u
    }
}

/// The float next to an integer.
pub open spec fn nearest_float(i: int) -> int {
    if i < 0 {
        -(rounded((-i) as nat, float_unit((-i) as nat)) as int)
    } else {
        rounded(i as nat, float_unit(i as nat)) as int
    }
}

/// Rounds to the precision of a float.
fn round_nat(n: u64) -> (r: u128)
    ensures
        r == rounded(n as nat, float_unit(n as nat)),
        r <= 0x1_0000_0000_0000_0000,
        n <= 0x8000_0000_0000_0000 ==> r <= 0x8000_0000_0000_0000,
{
    let mut m: u64 = n;
    let mut u: u64 = 1;
    let mut k: u32 = 0;
    while m >= 0x20_0000_0000_0000
        invariant
            float_unit(n as nat) == u * float_unit(m as nat),
            k <= 11,
            (k == 0 && u == 1) || (k == 1 && u == 2) || (k == 2 && u == 4) || (k == 3 && u == 8) || (
            k == 4 && u == 16) || (k == 5 && u == 32) || (k == 6 && u == 64) || (k == 7 && u == 128)
                || (k == 8 && u == 256) || (k == 9 && u == 512) || (k == 10 && u == 1024) || (k
                == 11 && u == 2048),
            m == n / u,
        decreases m,
    {
        proof {
            assert(u * (2 * float_unit((m / 2) as nat)) == (u * 2) * float_unit((m / 2) as nat))
                by (nonlinear_arith);
            assert(n / u / 2 == n / ((u * 2) as u64)) by (nonlinear_arith)
                requires
                    1 <= u <= 2048,
            ;
        }
        m = m / 2;
        u = u * 2;
        k = k + 1;
    }
    let q: u64 = n / u;
    let r: u64 = n % u;
    assert(q * u <= n) by (nonlinear_arith)
        requires
            q == n / u,
            u >= 1,
    ;
    assert((q + 1) * u == q * u + u) by (nonlinear_arith);
    assert(n == q * u + r) by (nonlinear_arith)
        requires
            q == n / u,
            r == n % u,
            u >= 1,
    ;
    if 2 * r > u || (2 * r == u && q % 2 == 1) {
        proof {
            lemma_round_bound(n, q, u, r);
        }
        (q as u128 + 1) * u as u128
    } else {
        q as u128 * u as u128
    }
}

/// Rounding up stays within the next power of two, which is a multiple of the unit.
proof fn lemma_round_bound(n: u64, q: u64, u: u64, r: u64)
    requires
        n == q * u + r,
        0 <= r < u,
        r > 0,
        u == 1 || u == 2 || u == 4 || u == 8 || u == 16 || u == 32 || u == 64 || u == 128 || u
            == 256 || u == 512 || u == 1024 || u == 2048,
    ensures
        (q + 1) * u <= 0x1_0000_0000_0000_0000,
        n <= 0x8000_0000_0000_0000 ==> (q + 1) * u <= 0x8000_0000_0000_0000,
{
    let t: int = 0x1_0000_0000_0000_0000;
    let h: int = 0x8000_0000_0000_0000;
    assert((q + 1) * u == n - r + u) by (nonlinear_arith)
        requires
            n == q * u + r,
    ;
    assert(t == (t / (u as int)) * u && h == (h / (u as int)) * u);
    assert(q < t / (u as int)) by (nonlinear_arith)
        requires
            q * u < t,
            t == (t / (u as int)) * u,
            u >= 1,
    ;
    assert((q + 1) * u <= (t / (u as int)) * u) by (nonlinear_arith)
        requires
            q + 1 <= t / (u as int),
            u >= 1,
    ;
    if n <= h {
        assert(q < h / (u as int)) by (nonlinear_arith)
            requires
                q * u + r <= h,
                r > 0,
                h == (h / (u as int)) * u,
                u >= 1,
        ;
        assert((q + 1) * u <= (h / (u as int)) * u) by (nonlinear_arith)
            requires
                q + 1 <= h / (u as int),
                u >= 1,
        ;
    }
}

/// The float next to an integer of at most 64 bits.
pub fn nearest(i: i128) -> (r: i128)
    requires
        i64::MIN <= i <= u64::MAX,
    ensures
        r == nearest_float(i as int),
        -0x8000_0000_0000_0000 <= r <= 0x1_0000_0000_0000_0000,
{
    if i < 0 {
        -(round_nat((-i) as u64) as i128)
    } else {
        round_nat(i as u64) as i128
    }
}

// ---------------------------------------------------------------------------------------
// Order
// ---------------------------------------------------------------------------------------

/// How two values stand to each other.
#[derive(Debug, Clone, Copy, PartialEq, Eq, Structural)]
pub enum Rank {
    Less,
    Equal,
    Greater,
}

/// How two integers stand to each other: as the floats next to them do.
pub open spec fn int_rank(a: int, b: int) -> Rank {
    if nearest_float(a) < nearest_float(b) {
        Rank::Less
    } else if nearest_float(a) == nearest_float(b) {
        Rank::Equal
    } else {
        Rank::Greater
    }
}

/// The text of a number as a float.
pub open spec fn number_float(v: ValueView) -> Seq<char> {
    match v {
        ValueView::Int(i) => float_of(i),
        ValueView::Float(t) => t,
        _ => Seq::empty(),
    }
}

/// How two numbers stand to each other; `None` where an answer is no order.
pub open spec fn number_rank(fl: Floats, l: ValueView, r: ValueView) -> Result<Option<Rank>, Fail> {
    match (l, r) {
        (ValueView::Int(a), ValueView::Int(b)) => Ok(Some(int_rank(a, b))),
        _ => {
            let q = FloatQueryView {
                op: FloatOp::Order,
                left: number_float(l),
                right: number_float(r),
            };
            match answer(fl, q) {
                None => Err(Fail::NeedFloat(q)),
                Some(FloatAnswerView::Less) => Ok(Some(Rank::Less)),
                Some(FloatAnswerView::Equal) => Ok(Some(Rank::Equal)),
                Some(FloatAnswerView::Greater) => Ok(Some(Rank::Greater)),
                Some(_) => Ok(None),
            }
        },
    }
}

/// An integer number.
fn wide(n: &Number) -> (r: Option<i128>)
    ensures
        match r {
            Some(i) => Value::Number(*n)@ == ValueView::Int(i as int) && i64::MIN <= i <= u64::MAX,
            None => Value::Number(*n)@ is Float,
        },
{
    match n {
        Number::PosInt(u) => Some(*u as i128),
        Number::NegInt(i) => Some(*i as i128),
        Number::Float(_) => None,
    }
}

/// The text of a number as a float.
pub fn float_of_number(n: &Number) -> (r: String)
    ensures
        r@ == number_float(Value::Number(*n)@),
{
    match n {
        Number::PosInt(u) => {
            let d = dec_u64(*u);
            float_of_text(d.as_str())
        },
        Number::NegInt(i) => {
            let d = dec_i64(*i);
            float_of_text(d.as_str())
        },
        Number::Float(t) => t.clone(),
    }
}

/// Compares two numbers.
pub fn rank_numbers(fl: &FloatTable, l: &Number, r: &Number) -> (res: Result<
    Option<Rank>,
    EvalError,
>)
    ensures
        (match res {
            Ok(o) => Ok(o),
            Err(e) => Err(e@),
        }) == number_rank(fl@, Value::Number(*l)@, Value::Number(*r)@),
{
    match (wide(l), wide(r)) {
        (Some(a), Some(b)) => {
            let x = nearest(a);
            let y = nearest(b);
            return if x < y {
                Ok(Some(Rank::Less))
            } else if x == y {
                Ok(Some(Rank::Equal))
            } else {
                Ok(Some(Rank::Greater))
            };
        },
        _ => {},
    }
    let a = float_of_number(l);
    let b = float_of_number(r);
    match fl.find(FloatOp::Order, a.as_str(), b.as_str()) {
        None => Err(EvalError::NeedFloat(FloatQuery { op: FloatOp::Order, left: a, right: b })),
        Some(FloatAnswer::Less) => Ok(Some(Rank::Less)),
        Some(FloatAnswer::Equal) => Ok(Some(Rank::Equal)),
        Some(FloatAnswer::Greater) => Ok(Some(Rank::Greater)),
        Some(_) => Ok(None),
    }
}

/// Floor division and remainder belong together, and the remainder has the sign of the
/// divisor and is smaller.
pub proof fn law_floor_division(x: int, y: int)
    requires
        y != 0,
    ensures
        x == y * floor_div(x, y) + floor_mod(x, y),
        y > 0 ==> 0 <= floor_mod(x, y) < y,
        y < 0 ==> y < floor_mod(x, y) <= 0,
{
    if y > 0 {
        let q = x / y;
        assert(0 <= x - y * q < y) by (nonlinear_arith)
            requires
                y > 0,
                q == x / y,
        ;
    } else {
        let z = -y;
        let w = -x;
        let q = w / z;
        assert(0 <= w - z * q < z) by (nonlinear_arith)
            requires
                z > 0,
                q == w / z,
        ;
        assert(z * q == -(y * q)) by (nonlinear_arith)
            requires
                z == -y,
        ;
    }
}

} // verus!
