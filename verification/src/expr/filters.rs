//! The filters of the expression language that look at a value alone.

use vstd::prelude::*;
use crate::expr::number::{absolute, absolute_of, as_num, float_of_number, number_float, operand, outcome_of, runtime, EvalError, Fail, Outcome};
use crate::expr::ops::{as_string, text_form, text_outcome};
use crate::regexes::{regex_replaced, replace_all};
use crate::text::{ascii_lower_of, ascii_lower_text, at, char_to_lower, char_to_upper, chars_of, debug_str, debug_text, digit, is_digit, join3, lower_char, lower_text, parse_i64, parse_i64_spec, same, stands_at, text_of_char, text_span, to_lower, to_upper, trim, trim_text, upper_char, upper_text};
use crate::value::{as_i64, float_text, float_view, int_value, is_zero_text, lemma_list_view, read_float, values, zero_text, Number, Value, ValueView};

verus! {

// ---------------------------------------------------------------------------------------
// Text
// ---------------------------------------------------------------------------------------

/// `s` from `i` on, with every `old` replaced by `new`, from left to right.
pub open spec fn replaced_from(s: Seq<char>, old: Seq<char>, new: Seq<char>, i: int) -> Seq<char>
    decreases s.len() - i,
{
    if i < 0 || i >= s.len() || old.len() == 0 {
        Seq::empty()
    } else if stands_at(s, old, i) {
        new + replaced_from(s, old, new, i + old.len())
    } else {
        seq![s[i]] + replaced_from(s, old, new, i + 1)
    }
}

/// `s` from `i` on, with `new` before every character and at the end.
pub open spec fn interleaved_from(s: Seq<char>, new: Seq<char>, i: int) -> Seq<char>
    decreases s.len() - i,
{
    if i < 0 || i >= s.len() {
        new
    } else {
        new + seq![s[i]] + interleaved_from(s, new, i + 1)
    }
}

/// `s` with every `old` replaced by `new`; an empty `old` stands between all characters.
pub open spec fn replaced(s: Seq<char>, old: Seq<char>, new: Seq<char>) -> Seq<char> {
    if old.len() == 0 {
        interleaved_from(s, new, 0)
    } else {
        replaced_from(s, old, new, 0)
    }
}

/// Replaces every occurrence of a text.
pub fn replace(s: &str, old: &str, new: &str) -> (r: String)
    ensures
        r@ == replaced(s@, old@, new@),
{
    let cs = chars_of(s);
    let os = chars_of(old);
    let mut out = String::new();
    let mut i: usize = 0;
    if os.len() == 0 {
        assert(out@ + interleaved_from(s@, new@, 0) =~= interleaved_from(s@, new@, 0));
        while i < cs.len()
            invariant
                i <= cs.len(),
                cs@ == s@,
                out@ + interleaved_from(s@, new@, i as int) == interleaved_from(s@, new@, 0),
            decreases cs.len() - i,
        {
            let ghost before = out@;
            out.append(new);
            out.push(cs[i]);
            i += 1;
            let ghost rest = interleaved_from(s@, new@, i as int);
            assert(before + (new@ + seq![s@[i - 1]] + rest) =~= out@ + rest);
        }
        out.append(new);
        return out;
    }
    assert(out@ + replaced_from(s@, old@, new@, 0) =~= replaced_from(s@, old@, new@, 0));
    while i < cs.len()
        invariant
            i <= cs.len(),
            cs@ == s@,
            os@ == old@,
            os.len() > 0,
            out@ + replaced_from(s@, old@, new@, i as int) == replaced_from(s@, old@, new@, 0),
        decreases cs.len() - i,
    {
        let ghost before = out@;
        if at(&cs, i, &os) {
            out.append(new);
            i += os.len();
            let ghost rest = replaced_from(s@, old@, new@, i as int);
            assert(before + (new@ + rest) =~= out@ + rest);
        } else {
            out.push(cs[i]);
            i += 1;
            let ghost rest = replaced_from(s@, old@, new@, i as int);
            assert(before + (seq![s@[i - 1]] + rest) =~= out@ + rest);
        }
    }
    assert(out@ + Seq::<char>::empty() =~= out@);
    out
}

/// `s` without the characters of `set` at its start.
pub open spec fn strip_start(s: Seq<char>, set: Seq<char>) -> Seq<char>
    decreases s.len(),
{
    if s.len() > 0 && set.contains(s[0]) {
        strip_start(s.drop_first(), set)
    } else {
        s
    }
}

/// `s` without the characters of `set` at its end.
pub open spec fn strip_end(s: Seq<char>, set: Seq<char>) -> Seq<char>
    decreases s.len(),
{
    if s.len() > 0 && set.contains(s.last()) {
        strip_end(s.drop_last(), set)
    } else {
        s
    }
}

/// Whether a character is one of some.
fn one_of(set: &Vec<char>, c: char) -> (r: bool)
    ensures
        r == set@.contains(c),
{
    let mut i: usize = 0;
    while i < set.len()
        invariant
            i <= set.len(),
            forall|j: int| 0 <= j < i ==> set@[j] != c,
        decreases set.len() - i,
    {
        if set[i] == c {
            return true;
        }
        i += 1;
    }
    false
}

/// Strips characters off both ends.
fn strip(s: &str, set: &str) -> (r: String)
    ensures
        r@ == strip_end(strip_start(s@, set@), set@),
{
    let cs = chars_of(s);
    let set = chars_of(set);
    let mut a: usize = 0;
    assert(cs@.skip(0) =~= cs@);
    while a < cs.len() && one_of(&set, cs[a])
        invariant
            a <= cs.len(),
            strip_start(cs@.skip(a as int), set@) == strip_start(cs@, set@),
        decreases cs.len() - a,
    {
        assert(cs@.skip(a as int).drop_first() =~= cs@.skip(a + 1));
        a += 1;
    }
    let ghost t = cs@.skip(a as int);
    assert(strip_start(cs@, set@) == t);
    let mut b: usize = cs.len();
    assert(cs@.subrange(a as int, b as int) =~= t);
    while b > a && one_of(&set, cs[b - 1])
        invariant
            a <= b <= cs.len(),
            strip_end(cs@.subrange(a as int, b as int), set@) == strip_end(t, set@),
        decreases b,
    {
        assert(cs@.subrange(a as int, b as int).drop_last() =~= cs@.subrange(a as int, b - 1));
        b -= 1;
    }
    text_span(&cs, a, b)
}

/// The characters of `s` from `i` on in lower case, one by one.
pub open spec fn lower_rest(s: Seq<char>, i: int) -> Seq<char>
    decreases s.len() - i,
{
    if i < 0 || i >= s.len() {
        Seq::empty()
    } else {
        lower_char(s[i]) + lower_rest(s, i + 1)
    }
}

/// `s` with its first character in upper case and the others in lower case.
pub open spec fn capitalized(s: Seq<char>) -> Seq<char> {
    if s.len() == 0 {
        Seq::empty()
    } else {
        upper_char(s[0]) + lower_rest(s, 1)
    }
}

/// Capitalizes a text.
fn capitalize(s: &str) -> (r: String)
    ensures
        r@ == capitalized(s@),
{
    let cs = chars_of(s);
    let mut out = String::new();
    assert(out@ =~= Seq::<char>::empty());
    if cs.len() == 0 {
        return out;
    }
    let first = char_to_upper(cs[0]);
    out.append(first.as_str());
    assert(out@ =~= upper_char(s@[0]));
    let mut i: usize = 1;
    while i < cs.len()
        invariant
            1 <= i <= cs.len(),
            cs@ == s@,
            out@ + lower_rest(s@, i as int) == capitalized(s@),
        decreases cs.len() - i,
    {
        let ghost before = out@;
        let c = char_to_lower(cs[i]);
        out.append(c.as_str());
        i += 1;
        assert(before + (lower_char(s@[i - 1]) + lower_rest(s@, i as int)) =~= out@ + lower_rest(
            s@,
            i as int,
        ));
    }
    assert(out@ + Seq::<char>::empty() =~= out@);
    out
}

// ---------------------------------------------------------------------------------------
// Replacement templates
// ---------------------------------------------------------------------------------------

/// Where the digits from `i` on end.
pub open spec fn digits_end(s: Seq<char>, i: int) -> int
    decreases s.len() - i,
{
    if 0 <= i < s.len() && is_digit(s[i]) {
        digits_end(s, i + 1)
    } else {
        i
    }
}

/// Where the name from `i` on ends: at the next `>`, or with the text.
pub open spec fn name_end(s: Seq<char>, i: int) -> int
    decreases s.len() - i,
{
    if 0 <= i < s.len() && s[i] != '>' {
        name_end(s, i + 1)
    } else {
        i
    }
}

/// A reference to a group of a match, in the syntax of the `regex` crate.
pub open spec fn group_reference(name: Seq<char>) -> Seq<char> {
    seq!['$', '{'] + name + seq!['}']
}

/// A Python replacement template from `i` on, in the syntax of the `regex` crate: `\1` and
/// `\g<name>` are references, `$` is literal, and a backslash takes any other character as
/// it is.
pub open spec fn template_from(s: Seq<char>, i: int) -> Seq<char>
    decreases s.len() - i,
    when 0 <= i via template_ends
{
    if i >= s.len() {
        Seq::empty()
    } else if s[i] == '$' {
        seq!['$', '$'] + template_from(s, i + 1)
    } else if s[i] == '\\' && i + 1 < s.len() {
        if is_digit(s[i + 1]) {
            let j = digits_end(s, i + 1);
            group_reference(s.subrange(i + 1, j)) + template_from(s, j)
        } else if s[i + 1] == 'g' && i + 2 < s.len() && s[i + 2] == '<' {
            let j = name_end(s, i + 3);
            let next = if j < s.len() {
                j + 1
            } else {
                j
            };
            group_reference(s.subrange(i + 3, j)) + template_from(s, next)
        } else {
            seq![s[i + 1]] + template_from(s, i + 2)
        }
    } else {
        seq![s[i]] + template_from(s, i + 1)
    }
}

proof fn lemma_digits_end(s: Seq<char>, i: int)
    requires
        0 <= i <= s.len(),
    ensures
        i <= digits_end(s, i) <= s.len(),
        i < s.len() && is_digit(s[i]) ==> i < digits_end(s, i),
    decreases s.len() - i,
{
    if i < s.len() && is_digit(s[i]) {
        lemma_digits_end(s, i + 1);
    }
}

proof fn lemma_name_end(s: Seq<char>, i: int)
    requires
        0 <= i <= s.len(),
    ensures
        i <= name_end(s, i) <= s.len(),
    decreases s.len() - i,
{
    if i < s.len() && s[i] != '>' {
        lemma_name_end(s, i + 1);
    }
}

#[via_fn]
proof fn template_ends(s: Seq<char>, i: int) {
    if i + 1 < s.len() {
        lemma_digits_end(s, i + 1);
        if i + 2 < s.len() {
            lemma_name_end(s, i + 3);
        }
    }
}

/// Translates a Python replacement template.
pub fn translate_replacement(rep: &str) -> (r: String)
    ensures
        r@ == template_from(rep@, 0),
{
    let cs = chars_of(rep);
    let mut out = String::new();
    let mut i: usize = 0;
    let ghost s = rep@;
    assert(out@ + template_from(s, 0) =~= template_from(s, 0));
    while i < cs.len()
        invariant
            i <= cs.len(),
            cs@ == s,
            out@ + template_from(s, i as int) == template_from(s, 0),
        decreases cs.len() - i,
    {
        let ghost before = out@;
        let c = cs[i];
        if c == '$' {
            out.push('$');
            out.push('$');
            i += 1;
            assert(before + (seq!['$', '$'] + template_from(s, i as int)) =~= out@ + template_from(
                s,
                i as int,
            ));
        } else if c == '\\' && i + 1 < cs.len() {
            let next = cs[i + 1];
            if digit(next) {
                let mut j: usize = i + 1;
                while j < cs.len() && digit(cs[j])
                    invariant
                        i + 1 <= j <= cs.len(),
                        cs@ == s,
                        digits_end(s, i + 1) == digits_end(s, j as int),
                    decreases cs.len() - j,
                {
                    j += 1;
                }
                proof {
                    lemma_digits_end(s, i + 1);
                }
                let num = text_span(&cs, i + 1, j);
                out.push('$');
                out.push('{');
                out.append(num.as_str());
                out.push('}');
                assert(before + (group_reference(num@) + template_from(s, j as int)) =~= out@
                    + template_from(s, j as int));
                i = j;
            } else if next == 'g' && i + 2 < cs.len() && cs[i + 2] == '<' {
                let mut j: usize = i + 3;
                while j < cs.len() && cs[j] != '>'
                    invariant
                        i + 3 <= j <= cs.len(),
                        cs@ == s,
                        name_end(s, i + 3) == name_end(s, j as int),
                    decreases cs.len() - j,
                {
                    j += 1;
                }
                let name = text_span(&cs, i + 3, j);
                out.push('$');
                out.push('{');
                out.append(name.as_str());
                out.push('}');
                proof {
                    lemma_name_end(s, i + 3);
                }
                i = if j < cs.len() {
                    j + 1
                } else {
                    j
                };
                assert(before + (group_reference(name@) + template_from(s, i as int)) =~= out@
                    + template_from(s, i as int));
            } else {
                out.push(next);
                i += 2;
                assert(before + (seq![next] + template_from(s, i as int)) =~= out@ + template_from(
                    s,
                    i as int,
                ));
            }
        } else {
            out.push(c);
            i += 1;
            assert(before + (seq![c] + template_from(s, i as int)) =~= out@ + template_from(
                s,
                i as int,
            ));
        }
    }
    assert(out@ + Seq::<char>::empty() =~= out@);
    out
}

// ---------------------------------------------------------------------------------------
// Values
// ---------------------------------------------------------------------------------------

/// A value as an integer; 0 where it is none.
pub open spec fn int_form(v: ValueView) -> int {
    match v {
        ValueView::Int(_) => match as_i64(v) {
            Some(i) => i as int,
            None => 0,
        },
        ValueView::Text(s) => match parse_i64_spec(trim(s)) {
            Some(i) => i as int,
            None => 0,
        },
        ValueView::Bool(b) => if b {
            1
        } else {
            0
        },
        _ => 0,
    }
}

/// A value as an integer.
fn to_int(v: &Value) -> (r: i64)
    ensures
        r == int_form(v@),
{
    match v {
        Value::Number(_) => match v.to_i64() {
            Some(i) => i,
            None => 0,
        },
        Value::Text(s) => {
            let t = trim_text(s.as_str());
            match parse_i64(t.as_str()) {
                Some(i) => i,
                None => 0,
            }
        },
        Value::Bool(b) => if *b {
            1
        } else {
            0
        },
        _ => 0,
    }
}

/// A text as a float, given what it reads as; what is no float is zero.
pub open spec fn text_float(f: Option<Option<Seq<char>>>) -> Outcome {
    match f {
        Some(Some(t)) => Ok(ValueView::Float(t)),
        Some(None) => Err(Fail::Runtime("non-finite numeric result"@)),
        None => Ok(ValueView::Float("0.0"@)),
    }
}

/// A value as a float; zero where it is none.
pub open spec fn float_form(v: ValueView) -> Outcome {
    match v {
        ValueView::Int(_) => Ok(ValueView::Float(number_float(v))),
        ValueView::Float(_) => Ok(v),
        ValueView::Text(s) => text_float(float_text(trim(s))),
        ValueView::Bool(b) => Ok(
            ValueView::Float(
                if b {
                    "1.0"@
                } else {
                    "0.0"@
                },
            ),
        ),
        _ => Ok(ValueView::Float("0.0"@)),
    }
}

/// A float value, by its text.
fn float_value(t: &str) -> (r: Value)
    ensures
        r@ == ValueView::Float(t@),
{
    Value::Number(Number::Float(t.to_owned()))
}

/// A text as a float, given what it reads as.
pub fn float_of_text(f: Option<Option<String>>) -> (r: Result<Value, EvalError>)
    ensures
        outcome_of(r) == text_float(float_view(f)),
{
    match f {
        Some(Some(t)) => Ok(Value::Number(Number::Float(t))),
        Some(None) => Err(runtime("non-finite numeric result")),
        None => Ok(float_value("0.0")),
    }
}

/// A value as a float.
fn to_float(v: &Value) -> (r: Result<Value, EvalError>)
    ensures
        outcome_of(r) == float_form(v@),
{
    match v {
        Value::Number(n) => {
            let t = float_of_number(n);
            Ok(Value::Number(Number::Float(t)))
        },
        Value::Text(s) => {
            let t = trim_text(s.as_str());
            float_of_text(read_float(t.as_str()))
        },
        Value::Bool(b) => if *b {
            Ok(float_value("1.0"))
        } else {
            Ok(float_value("0.0"))
        },
        _ => Ok(float_value("0.0")),
    }
}

/// A value as a boolean: numbers but zero, and the texts that say yes.
pub open spec fn bool_form(v: ValueView) -> bool {
    match v {
        ValueView::Bool(b) => b,
        ValueView::Int(i) => i != 0,
        ValueView::Float(t) => !is_zero_text(t),
        ValueView::Text(s) => {
            let t = ascii_lower_text(s);
            t == "true"@ || t == "yes"@ || t == "on"@ || t == "1"@ || t == "t"@ || t == "y"@
        },
        _ => false,
    }
}

/// A value as a boolean.
fn ansible_bool(v: &Value) -> (r: bool)
    ensures
        r == bool_form(v@),
{
    match v {
        Value::Bool(b) => *b,
        Value::Number(Number::PosInt(n)) => *n != 0,
        Value::Number(Number::NegInt(n)) => *n != 0,
        Value::Number(Number::Float(t)) => !zero_text(t.as_str()),
        Value::Text(s) => {
            let l = ascii_lower_of(s.as_str());
            let t = l.as_str();
            same(t, "true") || same(t, "yes") || same(t, "on") || same(t, "1") || same(t, "t")
                || same(t, "y")
        },
        _ => false,
    }
}

/// How long a value is.
pub open spec fn length_form(v: ValueView) -> Outcome {
    match v {
        ValueView::Text(s) => Ok(ValueView::Int(s.len() as int)),
        ValueView::List(a) => Ok(ValueView::Int(a.len() as int)),
        ValueView::Dict(o) => Ok(ValueView::Int(o.len() as int)),
        _ => Err(Fail::Runtime("object has no length"@)),
    }
}

/// A length as a value.
fn length_value(n: usize) -> (r: Value)
    ensures
        r@ == ValueView::Int(n as int),
{
    Value::Number(Number::PosInt(n as u64))
}

/// How long a value is.
fn length(v: &Value) -> (r: Result<Value, EvalError>)
    ensures
        outcome_of(r) == length_form(v@),
{
    match v {
        Value::Text(s) => {
            let cs = chars_of(s.as_str());
            Ok(length_value(cs.len()))
        },
        Value::List(a) => {
            proof {
                lemma_list_view(*a);
            }
            Ok(length_value(a.len()))
        },
        Value::Dict(o) => Ok(length_value(o.len())),
        _ => Err(runtime("object has no length")),
    }
}

/// The first or the last of a sequence.
pub open spec fn end_form(v: ValueView, last: bool) -> Outcome {
    match v {
        ValueView::List(a) => if a.len() == 0 {
            Err(Fail::Undefined)
        } else {
            Ok(
                if last {
                    a.last()
                } else {
                    a[0]
                },
            )
        },
        ValueView::Text(s) => if s.len() == 0 {
            Err(Fail::Undefined)
        } else {
            Ok(
                ValueView::Text(
                    seq![
                        if last {
                            s.last()
                        } else {
                            s[0]
                        },
                    ],
                ),
            )
        },
        _ => Err(
            Fail::Runtime(
                if last {
                    "last of non-sequence"@
                } else {
                    "first of non-sequence"@
                },
            ),
        ),
    }
}

/// The first or the last of a sequence.
fn end_of(v: &Value, last: bool) -> (r: Result<Value, EvalError>)
    ensures
        outcome_of(r) == end_form(v@, last),
{
    match v {
        Value::List(a) => {
            proof {
                lemma_list_view(*a);
            }
            if a.len() == 0 {
                return Err(EvalError::Undefined);
            }
            let i: usize = if last {
                a.len() - 1
            } else {
                0
            };
            Ok(a[i].clone())
        },
        Value::Text(s) => {
            let cs = chars_of(s.as_str());
            if cs.len() == 0 {
                return Err(EvalError::Undefined);
            }
            let i: usize = if last {
                cs.len() - 1
            } else {
                0
            };
            Ok(Value::Text(text_of_char(cs[i])))
        },
        _ => if last {
            Err(runtime("last of non-sequence"))
        } else {
            Err(runtime("first of non-sequence"))
        },
    }
}

/// The first `n` items of a list as text, separated; the first item that has no text is
/// the failure.
pub open spec fn joined(a: Seq<ValueView>, n: nat, sep: Seq<char>) -> Result<Seq<char>, Fail>
    decreases n,
{
    if n == 0 || n > a.len() {
        Ok(Seq::empty())
    } else {
        match joined(a, (n - 1) as nat, sep) {
            Err(e) => Err(e),
            Ok(before) => match text_form(a[n - 1]) {
                Err(e) => Err(e),
                Ok(t) => Ok(
                    if n == 1 {
                        t
                    } else {
                        before + sep + t
                    },
                ),
            },
        }
    }
}

/// A failure among the first items is the failure of all.
proof fn lemma_join_fails(a: Seq<ValueView>, n: nat, sep: Seq<char>, m: nat)
    requires
        n <= m <= a.len(),
        joined(a, n, sep) is Err,
    ensures
        joined(a, m, sep) == joined(a, n, sep),
    decreases m - n,
{
    if n < m {
        lemma_join_fails(a, n, sep, (m - 1) as nat);
    }
}

/// Joins the items of a list.
fn join_items(a: &Vec<Value>, sep: &str) -> (r: Result<String, EvalError>)
    ensures
        text_outcome(r) == joined(values(a@), a@.len(), sep@),
{
    let ghost items = values(a@);
    let mut out = String::new();
    let mut i: usize = 0;
    assert(out@ =~= Seq::<char>::empty());
    while i < a.len()
        invariant
            i <= a.len(),
            items == values(a@),
            joined(items, i as nat, sep@) == Ok::<Seq<char>, Fail>(out@),
        decreases a.len() - i,
    {
        assert(items[i as int] == a@[i as int]@);
        let t = match as_string(&a[i]) {
            Ok(t) => t,
            Err(e) => {
                proof {
                    lemma_join_fails(items, (i + 1) as nat, sep@, items.len());
                }
                return Err(e);
            },
        };
        if i == 0 {
            out = t;
        } else {
            out.append(sep);
            out.append(t.as_str());
        }
        i += 1;
    }
    Ok(out)
}

/// The text of a required argument of a filter.
pub open spec fn required(name: Seq<char>, a: Option<Outcome>) -> Result<Seq<char>, Fail> {
    match a {
        Some(Ok(x)) => text_form(x),
        Some(Err(e)) => Err(e),
        None => Err(
            Fail::Runtime("filter `"@ + name + "` is missing a required argument"@),
        ),
    }
}

/// What replacing matches of a pattern gave, as a value.
pub open spec fn regex_form(pattern: Seq<char>, r: Result<Seq<char>, Seq<char>>) -> Outcome {
    match r {
        Ok(t) => Ok(ValueView::Text(t)),
        Err(m) => Err(Fail::Runtime("invalid regex "@ + debug_text(pattern) + ": "@ + m)),
    }
}

/// A value with every match of a pattern replaced. A pattern that is no regular expression
/// fails before a value that has no text does.
pub open spec fn regex_filter(v: ValueView, pattern: Seq<char>, rep: Seq<char>) -> Outcome {
    let t = template_from(rep, 0);
    match text_form(v) {
        Ok(s) => regex_form(pattern, regex_replaced(pattern, s, t)),
        Err(e) => match regex_replaced(pattern, Seq::empty(), t) {
            Ok(_) => Err(e),
            Err(m) => regex_form(pattern, Err(m)),
        },
    }
}

/// What a text filter gives: a text made from the value's text.
pub open spec fn on_text(v: ValueView, f: spec_fn(Seq<char>) -> Seq<char>) -> Outcome {
    match text_form(v) {
        Ok(s) => Ok(ValueView::Text(f(s))),
        Err(e) => Err(e),
    }
}

/// The filter `trim`: white space, or the characters of its argument.
pub open spec fn trim_form(v: ValueView, a0: Option<Outcome>) -> Outcome {
    match text_form(v) {
        Err(e) => Err(e),
        Ok(s) => match a0 {
            None => Ok(ValueView::Text(trim(s))),
            Some(Err(e)) => Err(e),
            Some(Ok(x)) => match text_form(x) {
                Err(e) => Err(e),
                Ok(set) => Ok(ValueView::Text(strip_end(strip_start(s, set), set))),
            },
        },
    }
}

/// The filter `join`.
pub open spec fn join_form(v: ValueView, a0: Option<Outcome>) -> Outcome {
    let sep = match a0 {
        None => Ok(Seq::empty()),
        Some(Err(e)) => Err(e),
        Some(Ok(x)) => text_form(x),
    };
    match sep {
        Err(e) => Err(e),
        Ok(s) => match v {
            ValueView::List(a) => match joined(a, a.len(), s) {
                Ok(t) => Ok(ValueView::Text(t)),
                Err(e) => Err(e),
            },
            _ => Err(Fail::Runtime("join of non-list"@)),
        },
    }
}

/// What a filter gives for a value and its first two arguments.
pub open spec fn filtered(
    name: Seq<char>,
    v: ValueView,
    a0: Option<Outcome>,
    a1: Option<Outcome>,
) -> Outcome {
    if name == "lower"@ {
        on_text(v, |s: Seq<char>| lower_text(s))
    } else if name == "upper"@ {
        on_text(v, |s: Seq<char>| upper_text(s))
    } else if name == "string"@ {
        on_text(v, |s: Seq<char>| s)
    } else if name == "capitalize"@ {
        on_text(v, |s: Seq<char>| capitalized(s))
    } else if name == "int"@ {
        Ok(ValueView::Int(int_form(v)))
    } else if name == "float"@ {
        float_form(v)
    } else if name == "bool"@ {
        Ok(ValueView::Bool(bool_form(v)))
    } else if name == "abs"@ {
        match as_num(v) {
            Some(n) => absolute(n),
            None => Err(Fail::Runtime("abs of non-number"@)),
        }
    } else if name == "length"@ || name == "count"@ {
        length_form(v)
    } else if name == "first"@ {
        end_form(v, false)
    } else if name == "last"@ {
        end_form(v, true)
    } else if name == "trim"@ {
        trim_form(v, a0)
    } else if name == "join"@ {
        join_form(v, a0)
    } else if name == "replace"@ || name == "regex_replace"@ {
        match required(name, a0) {
            Err(e) => Err(e),
            Ok(x) => match required(name, a1) {
                Err(e) => Err(e),
                Ok(y) => if name == "replace"@ {
                    on_text(v, |s: Seq<char>| replaced(s, x, y))
                } else {
                    regex_filter(v, x, y)
                },
            },
        }
    } else {
        Err(Fail::Unsupported("unsupported filter `"@ + name + "`"@))
    }
}

/// What an argument gave.
pub open spec fn opt_outcome(o: Option<Result<Value, EvalError>>) -> Option<Outcome> {
    match o {
        Some(r) => Some(outcome_of(r)),
        None => None,
    }
}

/// The text of a required argument.
fn required_text(name: &str, a: Option<Result<Value, EvalError>>) -> (r: Result<String, EvalError>)
    ensures
        text_outcome(r) == required(name@, opt_outcome(a)),
{
    match a {
        Some(Ok(x)) => as_string(&x),
        Some(Err(e)) => Err(e),
        None => Err(
            EvalError::Runtime(join3("filter `", name, "` is missing a required argument")),
        ),
    }
}

/// What replacing matches of a pattern gave, as a value.
pub fn regex_value(pattern: &str, r: Result<String, String>) -> (res: Result<Value, EvalError>)
    ensures
        outcome_of(res) == regex_form(
            pattern@,
            match r {
                Ok(t) => Ok(t@),
                Err(m) => Err(m@),
            },
        ),
{
    match r {
        Ok(t) => Ok(Value::Text(t)),
        Err(m) => {
            let mut msg = "invalid regex ".to_owned();
            let shown = debug_str(pattern);
            msg.append(shown.as_str());
            msg.append(": ");
            msg.append(m.as_str());
            Err(EvalError::Runtime(msg))
        },
    }
}

/// The filter `regex_replace`.
fn regex_replace(v: &Value, pattern: &str, rep: &str) -> (r: Result<Value, EvalError>)
    ensures
        outcome_of(r) == regex_filter(v@, pattern@, rep@),
{
    let t = translate_replacement(rep);
    match as_string(v) {
        Ok(s) => regex_value(pattern, replace_all(pattern, s.as_str(), t.as_str())),
        Err(e) => {
            let none = String::new();
            assert(none@ =~= Seq::<char>::empty());
            match replace_all(pattern, none.as_str(), t.as_str()) {
                Ok(_) => Err(e),
                Err(m) => regex_value(pattern, Err(m)),
            }
        },
    }
}

/// The filter `trim`.
fn trim_filter(v: &Value, a0: Option<Result<Value, EvalError>>) -> (r: Result<Value, EvalError>)
    ensures
        outcome_of(r) == trim_form(v@, opt_outcome(a0)),
{
    let s = match as_string(v) {
        Ok(s) => s,
        Err(e) => {
            return Err(e);
        },
    };
    match a0 {
        None => Ok(Value::Text(trim_text(s.as_str()))),
        Some(Err(e)) => Err(e),
        Some(Ok(x)) => match as_string(&x) {
            Ok(set) => Ok(Value::Text(strip(s.as_str(), set.as_str()))),
            Err(e) => Err(e),
        },
    }
}

/// The filter `join`.
fn join_filter(v: &Value, a0: Option<Result<Value, EvalError>>) -> (r: Result<Value, EvalError>)
    ensures
        outcome_of(r) == join_form(v@, opt_outcome(a0)),
{
    let sep = match a0 {
        None => {
            let none = String::new();
            assert(none@ =~= Seq::<char>::empty());
            none
        },
        Some(Err(e)) => {
            return Err(e);
        },
        Some(Ok(x)) => match as_string(&x) {
            Ok(s) => s,
            Err(e) => {
                return Err(e);
            },
        },
    };
    match v {
        Value::List(a) => {
            proof {
                lemma_list_view(*a);
            }
            match join_items(a, sep.as_str()) {
                Ok(t) => Ok(Value::Text(t)),
                Err(e) => Err(e),
            }
        },
        _ => Err(runtime("join of non-list")),
    }
}

/// The filter `abs`.
fn abs_filter(v: &Value) -> (r: Result<Value, EvalError>)
    ensures
        outcome_of(r) == (match as_num(v@) {
            Some(n) => absolute(n),
            None => Err(Fail::Runtime("abs of non-number"@)),
        }),
{
    match v {
        Value::Number(n) => {
            let x = operand(n);
            absolute_of(&x)
        },
        _ => Err(runtime("abs of non-number")),
    }
}

/// Applies a filter to a value and its first two arguments.
pub fn filter_value(
    name: &str,
    v: &Value,
    a0: Option<Result<Value, EvalError>>,
    a1: Option<Result<Value, EvalError>>,
) -> (r: Result<Value, EvalError>)
    ensures
        outcome_of(r) == filtered(name@, v@, opt_outcome(a0), opt_outcome(a1)),
{
    if same(name, "lower") || same(name, "upper") || same(name, "string") || same(
        name,
        "capitalize",
    ) {
        let s = match as_string(v) {
            Ok(s) => s,
            Err(e) => {
                return Err(e);
            },
        };
        let t = if same(name, "lower") {
            to_lower(s.as_str())
        } else if same(name, "upper") {
            to_upper(s.as_str())
        } else if same(name, "string") {
            s
        } else {
            capitalize(s.as_str())
        };
        return Ok(Value::Text(t));
    }
    if same(name, "int") {
        return Ok(int_value(to_int(v)));
    }
    if same(name, "float") {
        return to_float(v);
    }
    if same(name, "bool") {
        return Ok(Value::Bool(ansible_bool(v)));
    }
    if same(name, "abs") {
        return abs_filter(v);
    }
    if same(name, "length") || same(name, "count") {
        return length(v);
    }
    if same(name, "first") {
        return end_of(v, false);
    }
    if same(name, "last") {
        return end_of(v, true);
    }
    if same(name, "trim") {
        return trim_filter(v, a0);
    }
    if same(name, "join") {
        return join_filter(v, a0);
    }
    if same(name, "replace") || same(name, "regex_replace") {
        let x = match required_text(name, a0) {
            Ok(x) => x,
            Err(e) => {
                return Err(e);
            },
        };
        let y = match required_text(name, a1) {
            Ok(y) => y,
            Err(e) => {
                return Err(e);
            },
        };
        if !same(name, "replace") {
            return regex_replace(v, x.as_str(), y.as_str());
        }
        return match as_string(v) {
            Ok(s) => Ok(Value::Text(replace(s.as_str(), x.as_str(), y.as_str()))),
            Err(e) => Err(e),
        };
    }
    Err(EvalError::Unsupported(join3("unsupported filter `", name, "`")))
}

} // verus!
