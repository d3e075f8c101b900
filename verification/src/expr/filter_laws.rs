//! What the filters of the expression language do.

use vstd::prelude::*;
use crate::expr::ast::AstView;
use crate::expr::eval::value_of;
use crate::expr::filters::{digits_end, group_reference, interleaved_from, joined, lower_rest, name_end, replaced, replaced_from, strip_end, strip_start, template_from};
use crate::expr::number::{Fail, Floats};
use crate::expr::ops::is_true;
use crate::regexes::regex_replaced;
use crate::text::{all_ascii, ascii_lower_text, dec, is_ascii, is_digit, is_space, law_decimal_reads_back, lemma_dec_is_trimmed, lemma_trim, occurs, parse_int, stands_at, trim, trim_start};
use crate::value::{float_text, ValueView, VarsView};

verus! {

/// `e | name(args)`.
pub open spec fn piped(e: AstView, name: Seq<char>, args: Seq<AstView>) -> AstView {
    AstView::Filter(Box::new(e), name, args)
}

/// `e | name`.
pub open spec fn filter_of(e: AstView, name: Seq<char>) -> AstView {
    piped(e, name, Seq::empty())
}

/// The names of the filters differ.
proof fn lemma_names()
    ensures
        "default"@.len() == 7 && "default"@[0] == 'd',
        "d"@.len() == 1,
        "ternary"@.len() == 7 && "ternary"@[0] == 't',
        "lower"@.len() == 5 && "lower"@[0] == 'l',
        "upper"@.len() == 5 && "upper"@[0] == 'u',
        "string"@.len() == 6 && "string"@[0] == 's',
        "capitalize"@.len() == 10,
        "int"@.len() == 3 && "int"@[0] == 'i',
        "float"@.len() == 5 && "float"@[0] == 'f' && "float"@[1] == 'l',
        "bool"@.len() == 4 && "bool"@[0] == 'b',
        "abs"@.len() == 3 && "abs"@[0] == 'a',
        "length"@.len() == 6 && "length"@[0] == 'l',
        "count"@.len() == 5 && "count"@[0] == 'c',
        "first"@.len() == 5 && "first"@[0] == 'f' && "first"@[1] == 'i',
        "last"@.len() == 4 && "last"@[0] == 'l',
        "trim"@.len() == 4 && "trim"@[0] == 't',
        "join"@.len() == 4 && "join"@[0] == 'j',
        "replace"@.len() == 7 && "replace"@[0] == 'r',
        "regex_replace"@.len() == 13,
{
    reveal_strlit("default");
    reveal_strlit("d");
    reveal_strlit("ternary");
    reveal_strlit("lower");
    reveal_strlit("upper");
    reveal_strlit("string");
    reveal_strlit("capitalize");
    reveal_strlit("int");
    reveal_strlit("float");
    reveal_strlit("bool");
    reveal_strlit("abs");
    reveal_strlit("length");
    reveal_strlit("count");
    reveal_strlit("first");
    reveal_strlit("last");
    reveal_strlit("trim");
    reveal_strlit("join");
    reveal_strlit("replace");
    reveal_strlit("regex_replace");
}

/// A filter of a value that failed fails in the same way, but for `default` and `ternary`.
pub proof fn law_failures_go_through_filters(
    e: AstView,
    name: Seq<char>,
    args: Seq<AstView>,
    vars: VarsView,
    fl: Floats,
)
    requires
        value_of(e, vars, fl) is Err,
        name != "default"@,
        name != "d"@,
        name != "ternary"@,
    ensures
        value_of(piped(e, name, args), vars, fl) == value_of(e, vars, fl),
{
}

// ---------------------------------------------------------------------------------------
// Numbers and truth
// ---------------------------------------------------------------------------------------

/// An integer of 64 bits stays itself under `int`, and so does the integer that a text
/// writes, with white space around it or without.
pub proof fn law_int_keeps_integers(
    e: AstView,
    i: int,
    a: Seq<char>,
    b: Seq<char>,
    vars: VarsView,
    fl: Floats,
)
    requires
        i64::MIN <= i <= i64::MAX,
        forall|k: int| 0 <= k < a.len() ==> is_space(#[trigger] a[k]),
        forall|k: int| 0 <= k < b.len() ==> is_space(#[trigger] b[k]),
        value_of(e, vars, fl) == Ok::<ValueView, Fail>(ValueView::Int(i)) || value_of(e, vars, fl)
            == Ok::<ValueView, Fail>(ValueView::Text(a + dec(i) + b)),
    ensures
        value_of(filter_of(e, "int"@), vars, fl) == Ok::<ValueView, Fail>(ValueView::Int(i)),
        value_of(filter_of(filter_of(filter_of(e, "int"@), "string"@), "int"@), vars, fl) == Ok::<
            ValueView,
            Fail,
        >(ValueView::Int(i)),
{
    lemma_names();
    law_decimal_reads_back(i);
    lemma_dec_is_trimmed(i);
    lemma_dec_ends(i);
    lemma_trim_around(a, dec(i), b);
    let x = filter_of(e, "int"@);
    let y = filter_of(x, "string"@);
    assert(value_of(x, vars, fl) == Ok::<ValueView, Fail>(ValueView::Int(i)));
    assert(value_of(y, vars, fl) == Ok::<ValueView, Fail>(ValueView::Text(dec(i))));
}

proof fn lemma_dec_ends(i: int)
    ensures
        dec(i).len() > 0,
        !is_space(dec(i)[0]),
        !is_space(dec(i).last()),
{
    lemma_dec_is_trimmed(i);
    law_decimal_reads_back(i);
    lemma_trim(dec(i));
}

/// Trimming takes the white space around a text and nothing else.
pub proof fn lemma_trim_around(a: Seq<char>, t: Seq<char>, b: Seq<char>)
    requires
        forall|k: int| 0 <= k < a.len() ==> is_space(#[trigger] a[k]),
        forall|k: int| 0 <= k < b.len() ==> is_space(#[trigger] b[k]),
        t.len() > 0,
        !is_space(t[0]),
        !is_space(t.last()),
    ensures
        trim(a + t + b) == t,
    decreases a.len() + b.len(),
{
    let s = a + t + b;
    if a.len() > 0 {
        assert(is_space(a[0]));
        assert(s.drop_first() =~= a.drop_first() + t + b);
        assert forall|k: int| 0 <= k < a.drop_first().len() implies is_space(
            #[trigger] a.drop_first()[k],
        ) by {
            assert(is_space(a[k + 1]));
        }
        lemma_trim_around(a.drop_first(), t, b);
    } else {
        assert(s[0] == t[0]);
        assert(trim_start(s) == s);
        if b.len() > 0 {
            assert(is_space(b[b.len() - 1]));
            assert(s.last() == b.last());
            let c = b.drop_last();
            assert(s.drop_last() =~= a + t + c);
            assert forall|k: int| 0 <= k < c.len() implies is_space(#[trigger] c[k]) by {
                assert(is_space(b[k]));
            }
            lemma_trim_around(a, t, c);
            assert((a + t + c)[0] == t[0]);
            assert(trim_start(a + t + c) == a + t + c);
        } else {
            assert(s =~= t);
        }
    }
}

/// What writes no integer is 0 under `int`; a boolean is 0 or 1, and so is what has no
/// integer.
pub proof fn law_int_of_anything(e: AstView, vars: VarsView, fl: Floats)
    ensures
        ({
            let r = value_of(filter_of(e, "int"@), vars, fl);
            match value_of(e, vars, fl) {
                Ok(ValueView::Bool(true)) => r == Ok::<ValueView, Fail>(ValueView::Int(1)),
                Ok(ValueView::Bool(false)) => r == Ok::<ValueView, Fail>(ValueView::Int(0)),
                Ok(ValueView::Text(t)) => parse_int(trim(t)) is None ==> r == Ok::<ValueView, Fail>(
                    ValueView::Int(0),
                ),
                Ok(ValueView::Int(_)) => r is Ok,
                Ok(_) => r == Ok::<ValueView, Fail>(ValueView::Int(0)),
                Err(f) => r == Err::<ValueView, Fail>(f),
            }
        }),
{
    lemma_names();
}

/// `float` keeps a float, takes a boolean for 1 or 0 and what is no number for 0; and it
/// gives an integer and the text that writes it the same float.
pub proof fn law_float(e: AstView, d: AstView, vars: VarsView, fl: Floats)
    ensures
        ({
            let r = value_of(filter_of(e, "float"@), vars, fl);
            match value_of(e, vars, fl) {
                Ok(ValueView::Float(t)) => r == Ok::<ValueView, Fail>(ValueView::Float(t)),
                Ok(ValueView::Bool(true)) => r == Ok::<ValueView, Fail>(ValueView::Float("1.0"@)),
                Ok(ValueView::Int(i)) => (value_of(d, vars, fl) == Ok::<ValueView, Fail>(
                    ValueView::Text(dec(i)),
                ) ==> {
                    let o = value_of(filter_of(d, "float"@), vars, fl);
                    o is Ok && o->Ok_0 != ValueView::Float("0.0"@) ==> r == o
                }),
                Ok(ValueView::Text(_)) => r matches Ok(x) ==> x is Float,
                Ok(_) => r == Ok::<ValueView, Fail>(ValueView::Float("0.0"@)),
                Err(f) => r == Err::<ValueView, Fail>(f),
            }
        }),
{
    lemma_names();
    if let Ok(ValueView::Int(i)) = value_of(e, vars, fl) {
        lemma_dec_is_trimmed(i);
    }
}

/// `float` gives the float that a text is read as, white space around it aside: zero for
/// one that is none, and a failure for one that is not finite.
pub proof fn law_float_of_texts(
    e: AstView,
    a: Seq<char>,
    t: Seq<char>,
    b: Seq<char>,
    vars: VarsView,
    fl: Floats,
)
    requires
        value_of(e, vars, fl) == Ok::<ValueView, Fail>(ValueView::Text(a + t + b)),
        forall|k: int| 0 <= k < a.len() ==> is_space(#[trigger] a[k]),
        forall|k: int| 0 <= k < b.len() ==> is_space(#[trigger] b[k]),
        t.len() > 0,
        !is_space(t[0]),
        !is_space(t.last()),
    ensures
        match float_text(t) {
            Some(Some(f)) => value_of(filter_of(e, "float"@), vars, fl) == Ok::<ValueView, Fail>(
                ValueView::Float(f),
            ),
            Some(None) => value_of(filter_of(e, "float"@), vars, fl) matches Err(Fail::Runtime(_)),
            None => value_of(filter_of(e, "float"@), vars, fl) == Ok::<ValueView, Fail>(
                ValueView::Float("0.0"@),
            ),
        },
{
    lemma_names();
    lemma_trim_around(a, t, b);
}

/// `abs` takes the sign away and nothing else.
pub proof fn law_abs(e: AstView, vars: VarsView, fl: Floats)
    ensures
        ({
            let r = value_of(filter_of(e, "abs"@), vars, fl);
            match value_of(e, vars, fl) {
                Ok(ValueView::Int(i)) => i64::MIN < i <= i64::MAX ==> (r matches Ok(
                    ValueView::Int(j),
                ) && j >= 0 && (j == i || j == -i)),
                Ok(ValueView::Float(t)) => r matches Ok(ValueView::Float(u)) && (if t.len() > 0
                    && t[0] == '-' {
                    seq!['-'] + u == t
                } else {
                    u == t
                }),
                Ok(_) => r matches Err(Fail::Runtime(_)),
                Err(f) => r == Err::<ValueView, Fail>(f),
            }
        }),
{
    lemma_names();
    if let Ok(ValueView::Float(t)) = value_of(e, vars, fl) {
        if t.len() > 0 && t[0] == '-' {
            assert(seq!['-'] + t.drop_first() =~= t);
        }
    }
}

/// Two texts are the same but for the case of ASCII letters.
pub open spec fn same_but_case(s: Seq<char>, w: Seq<char>) -> bool {
    s.len() == w.len() && forall|k: int|
        0 <= k < w.len() ==> (#[trigger] s[k] == w[k] || ('a' <= w[k] <= 'z' && s[k] as int
            == w[k] as int - 32))
}

/// A text says yes under `bool` where it is one of six words, in whatever case; a number
/// where it is not zero; a boolean is itself; everything else says no.
pub proof fn law_bool(e: AstView, vars: VarsView, fl: Floats)
    ensures
        ({
            let r = value_of(filter_of(e, "bool"@), vars, fl);
            match value_of(e, vars, fl) {
                Ok(ValueView::Bool(b)) => r == Ok::<ValueView, Fail>(ValueView::Bool(b)),
                Ok(ValueView::Int(i)) => r == Ok::<ValueView, Fail>(ValueView::Bool(i != 0)),
                Ok(ValueView::Text(s)) => r == Ok::<ValueView, Fail>(
                    ValueView::Bool(
                        same_but_case(s, "true"@) || same_but_case(s, "yes"@) || same_but_case(
                            s,
                            "on"@,
                        ) || same_but_case(s, "1"@) || same_but_case(s, "t"@) || same_but_case(
                            s,
                            "y"@,
                        ),
                    ),
                ),
                Ok(ValueView::Float(t)) => r == Ok::<ValueView, Fail>(
                    ValueView::Bool(t != "0.0"@ && t != "-0.0"@),
                ),
                Ok(_) => r == Ok::<ValueView, Fail>(ValueView::Bool(false)),
                Err(f) => r == Err::<ValueView, Fail>(f),
            }
        }),
{
    lemma_names();
    if let Ok(ValueView::Text(s)) = value_of(e, vars, fl) {
        reveal_strlit("true");
        reveal_strlit("yes");
        reveal_strlit("on");
        reveal_strlit("1");
        reveal_strlit("t");
        reveal_strlit("y");
        lemma_lower_is(s, "true"@);
        lemma_lower_is(s, "yes"@);
        lemma_lower_is(s, "on"@);
        lemma_lower_is(s, "1"@);
        lemma_lower_is(s, "t"@);
        lemma_lower_is(s, "y"@);
    }
}

proof fn lemma_lower_is(s: Seq<char>, w: Seq<char>)
    requires
        forall|k: int| 0 <= k < w.len() ==> 'a' <= #[trigger] w[k] <= 'z' || is_digit(w[k]),
    ensures
        ascii_lower_text(s) == w <==> same_but_case(s, w),
{
    let t = ascii_lower_text(s);
    if t == w {
        assert forall|k: int| 0 <= k < w.len() implies (#[trigger] s[k] == w[k] || ('a' <= w[k]
            <= 'z' && s[k] as int == w[k] as int - 32)) by {
            assert(t[k] == w[k]);
        }
    }
    if same_but_case(s, w) {
        assert forall|k: int| 0 <= k < w.len() implies t[k] == w[k] by {
            assert(s[k] == w[k] || ('a' <= w[k] <= 'z' && s[k] as int == w[k] as int - 32));
            assert('a' <= w[k] <= 'z' || is_digit(w[k]));
        }
        assert(t =~= w);
    }
}

// ---------------------------------------------------------------------------------------
// Text
// ---------------------------------------------------------------------------------------

/// `string` keeps a text, writes an integer in decimal, a float by its text, and booleans
/// and none as in Python; lists and dicts have no text.
pub proof fn law_string(e: AstView, vars: VarsView, fl: Floats)
    ensures
        ({
            let r = value_of(filter_of(e, "string"@), vars, fl);
            match value_of(e, vars, fl) {
                Ok(ValueView::Text(s)) => r == Ok::<ValueView, Fail>(ValueView::Text(s)),
                Ok(ValueView::Int(i)) => r == Ok::<ValueView, Fail>(ValueView::Text(dec(i))),
                Ok(ValueView::Float(t)) => r == Ok::<ValueView, Fail>(ValueView::Text(t)),
                Ok(ValueView::Bool(true)) => r == Ok::<ValueView, Fail>(ValueView::Text("True"@)),
                Ok(ValueView::Bool(false)) => r == Ok::<ValueView, Fail>(ValueView::Text("False"@)),
                Ok(ValueView::Null) => r == Ok::<ValueView, Fail>(ValueView::Text("None"@)),
                Ok(_) => r matches Err(Fail::Runtime(_)),
                Err(f) => r == Err::<ValueView, Fail>(f),
            }
        }),
{
    lemma_names();
}

/// `c` as a small letter is `d`.
pub open spec fn small_of(c: char, d: char) -> bool {
    if 'A' <= c <= 'Z' {
        d as int == c as int + 32
    } else {
        d == c
    }
}

/// `c` as a capital letter is `d`.
pub open spec fn capital_of(c: char, d: char) -> bool {
    if 'a' <= c <= 'z' {
        d as int == c as int - 32
    } else {
        d == c
    }
}

/// On ASCII, `lower`, `upper` and `capitalize` change the case of letters, each where it
/// stands: to small letters, to capital letters, and to a capital letter first and small
/// ones behind it.
pub proof fn law_case(e: AstView, s: Seq<char>, k: int, vars: VarsView, fl: Floats)
    requires
        value_of(e, vars, fl) == Ok::<ValueView, Fail>(ValueView::Text(s)),
        all_ascii(s),
        0 <= k < s.len(),
    ensures
        value_of(filter_of(e, "lower"@), vars, fl) matches Ok(ValueView::Text(t)) && t.len()
            == s.len() && small_of(s[k], t[k]),
        value_of(filter_of(e, "upper"@), vars, fl) matches Ok(ValueView::Text(t)) && t.len()
            == s.len() && capital_of(s[k], t[k]),
        value_of(filter_of(e, "capitalize"@), vars, fl) matches Ok(ValueView::Text(t)) && t.len()
            == s.len() && (if k == 0 {
            capital_of(s[k], t[k])
        } else {
            small_of(s[k], t[k])
        }),
{
    lemma_names();
    assert(is_ascii(s[0]));
    assert(is_ascii(s[k]));
    lemma_lower_rest(s, 1, if k > 0 { k } else { 1 });
}

proof fn lemma_lower_rest(s: Seq<char>, i: int, k: int)
    requires
        all_ascii(s),
        0 <= i <= k,
        i <= s.len(),
    ensures
        lower_rest(s, i).len() == s.len() - i,
        k < s.len() ==> small_of(s[k], lower_rest(s, i)[k - i]),
    decreases s.len() - i,
{
    if i < s.len() {
        assert(is_ascii(s[i]));
        lemma_lower_rest(s, i + 1, if k > i { k } else { i + 1 });
    }
}

/// `trim` takes the white space at both ends of a text, and no more.
pub proof fn law_trim(e: AstView, a: Seq<char>, t: Seq<char>, b: Seq<char>, vars: VarsView, fl: Floats)
    requires
        value_of(e, vars, fl) == Ok::<ValueView, Fail>(ValueView::Text(a + t + b)),
        forall|k: int| 0 <= k < a.len() ==> is_space(#[trigger] a[k]),
        forall|k: int| 0 <= k < b.len() ==> is_space(#[trigger] b[k]),
        t.len() > 0,
        !is_space(t[0]),
        !is_space(t.last()),
    ensures
        value_of(filter_of(e, "trim"@), vars, fl) == Ok::<ValueView, Fail>(ValueView::Text(t)),
{
    lemma_names();
    lemma_trim_around(a, t, b);
}

proof fn lemma_strip_around(a: Seq<char>, t: Seq<char>, b: Seq<char>, set: Seq<char>)
    requires
        forall|k: int| 0 <= k < a.len() ==> set.contains(#[trigger] a[k]),
        forall|k: int| 0 <= k < b.len() ==> set.contains(#[trigger] b[k]),
        t.len() > 0,
        !set.contains(t[0]),
        !set.contains(t.last()),
    ensures
        strip_end(strip_start(a + t + b, set), set) == t,
    decreases a.len() + b.len(),
{
    let s = a + t + b;
    if a.len() > 0 {
        assert(set.contains(a[0]));
        assert(s[0] == a[0]);
        assert(s.drop_first() =~= a.drop_first() + t + b);
        assert forall|k: int| 0 <= k < a.drop_first().len() implies set.contains(
            #[trigger] a.drop_first()[k],
        ) by {
            assert(set.contains(a[k + 1]));
        }
        lemma_strip_around(a.drop_first(), t, b, set);
    } else {
        assert(s[0] == t[0]);
        assert(strip_start(s, set) == s);
        if b.len() > 0 {
            assert(set.contains(b[b.len() - 1]));
            assert(s.last() == b.last());
            let c = b.drop_last();
            assert(s.drop_last() =~= a + t + c);
            assert forall|k: int| 0 <= k < c.len() implies set.contains(#[trigger] c[k]) by {
                assert(set.contains(b[k]));
            }
            lemma_strip_around(a, t, c, set);
            assert((a + t + c)[0] == t[0]);
            assert(strip_start(a + t + c, set) == a + t + c);
        } else {
            assert(s =~= t);
        }
    }
}

/// `trim(set)` takes the characters of the set at both ends of a text, and no more.
pub proof fn law_trim_characters(
    e: AstView,
    x: AstView,
    a: Seq<char>,
    t: Seq<char>,
    b: Seq<char>,
    set: Seq<char>,
    vars: VarsView,
    fl: Floats,
)
    requires
        value_of(e, vars, fl) == Ok::<ValueView, Fail>(ValueView::Text(a + t + b)),
        value_of(x, vars, fl) == Ok::<ValueView, Fail>(ValueView::Text(set)),
        forall|k: int| 0 <= k < a.len() ==> set.contains(#[trigger] a[k]),
        forall|k: int| 0 <= k < b.len() ==> set.contains(#[trigger] b[k]),
        t.len() > 0,
        !set.contains(t[0]),
        !set.contains(t.last()),
    ensures
        value_of(piped(e, "trim"@, seq![x]), vars, fl) == Ok::<ValueView, Fail>(ValueView::Text(t)),
{
    lemma_names();
    lemma_strip_around(a, t, b, set);
    assert(seq![x][0] == x);
}

proof fn lemma_replaced_shift(s: Seq<char>, old: Seq<char>, new: Seq<char>, i: int)
    requires
        0 <= i <= s.len(),
        old.len() > 0,
    ensures
        replaced_from(s, old, new, i) == replaced_from(s.skip(i), old, new, 0),
    decreases s.len() - i,
{
    let r = s.skip(i);
    lemma_replaced_offset(s, old, new, i, 0);
}

proof fn lemma_replaced_offset(s: Seq<char>, old: Seq<char>, new: Seq<char>, i: int, k: int)
    requires
        0 <= i,
        0 <= k,
        i + k <= s.len(),
        old.len() > 0,
    ensures
        replaced_from(s, old, new, i + k) == replaced_from(s.skip(i), old, new, k),
    decreases s.len() - i - k,
{
    let r = s.skip(i);
    if i + k < s.len() {
        assert(r[k] == s[i + k]);
        assert(stands_at(s, old, i + k) == stands_at(r, old, k)) by {
            if i + k + old.len() <= s.len() {
                assert(s.subrange(i + k, i + k + old.len()) =~= r.subrange(k, k + old.len()));
            }
        }
        if stands_at(s, old, i + k) {
            lemma_replaced_offset(s, old, new, i, k + old.len());
        } else {
            lemma_replaced_offset(s, old, new, i, k + 1);
        }
    }
}

proof fn lemma_replaced_front(s: Seq<char>, old: Seq<char>, new: Seq<char>, i: int, n: int)
    requires
        0 <= i <= n <= s.len(),
        old.len() > 0,
        forall|k: int| i <= k < n ==> !#[trigger] stands_at(s, old, k),
    ensures
        replaced_from(s, old, new, i) == s.subrange(i, n) + replaced_from(s, old, new, n),
    decreases n - i,
{
    if i < n {
        assert(!stands_at(s, old, i));
        lemma_replaced_front(s, old, new, i + 1, n);
        assert(s.subrange(i, n) =~= seq![s[i]] + s.subrange(i + 1, n));
        assert(seq![s[i]] + (s.subrange(i + 1, n) + replaced_from(s, old, new, n)) =~= s.subrange(
            i,
            n,
        ) + replaced_from(s, old, new, n));
    } else {
        assert(s.subrange(i, n) + replaced_from(s, old, new, n) =~= replaced_from(s, old, new, n));
    }
}

/// `replace(old, new)` leaves a text without `old` as it is. Else the first `old` becomes
/// `new`, what stands before it stays, and what stands behind it is replaced in turn.
pub proof fn law_replace(
    e: AstView,
    x: AstView,
    y: AstView,
    a: Seq<char>,
    b: Seq<char>,
    old: Seq<char>,
    new: Seq<char>,
    vars: VarsView,
    fl: Floats,
)
    requires
        value_of(x, vars, fl) == Ok::<ValueView, Fail>(ValueView::Text(old)),
        value_of(y, vars, fl) == Ok::<ValueView, Fail>(ValueView::Text(new)),
        old.len() > 0,
    ensures
        value_of(e, vars, fl) == Ok::<ValueView, Fail>(ValueView::Text(a)) && !occurs(a, old)
            ==> value_of(piped(e, "replace"@, seq![x, y]), vars, fl) == Ok::<ValueView, Fail>(
            ValueView::Text(a),
        ),
        value_of(e, vars, fl) == Ok::<ValueView, Fail>(ValueView::Text(a + old + b)) && (forall|
            k: int,
        |
            0 <= k < a.len() ==> !#[trigger] stands_at(a + old + b, old, k)) ==> (value_of(
            piped(AstView::Lit(ValueView::Text(b)), "replace"@, seq![x, y]),
            vars,
            fl,
        ) matches Ok(ValueView::Text(rest)) && value_of(
            piped(e, "replace"@, seq![x, y]),
            vars,
            fl,
        ) == Ok::<ValueView, Fail>(ValueView::Text(a + new + rest))),
{
    lemma_names();
    assert(seq![x, y][0] == x && seq![x, y][1] == y);
    if !occurs(a, old) {
        lemma_replaced_front(a, old, new, 0, a.len() as int);
        assert(a.subrange(0, a.len() as int) + Seq::<char>::empty() =~= a);
    }
    let s = a + old + b;
    if forall|k: int| 0 <= k < a.len() ==> !#[trigger] stands_at(s, old, k) {
        let n = a.len() as int;
        lemma_replaced_front(s, old, new, 0, n);
        assert(s.subrange(0, n) =~= a);
        assert(s.subrange(n, n + old.len()) =~= old);
        assert(stands_at(s, old, n));
        lemma_replaced_shift(s, old, new, n + old.len());
        assert(s.skip(n + old.len()) =~= b);
        let rest = replaced_from(b, old, new, 0);
        assert(a + (new + rest) =~= a + new + rest);
        assert(replaced(s, old, new) == a + new + rest);
        let d = AstView::Lit(ValueView::Text(b));
        assert(value_of(d, vars, fl) == Ok::<ValueView, Fail>(ValueView::Text(b)));
    }
}

/// An empty `old` stands before every character and at the end.
pub proof fn law_replace_nothing(s: Seq<char>, new: Seq<char>, i: int)
    requires
        0 <= i <= s.len(),
    ensures
        replaced(Seq::empty(), Seq::empty(), new) == new,
        replaced(s, Seq::empty(), new).len() == s.len() + (s.len() + 1) * new.len(),
        i < s.len() ==> replaced(s, Seq::empty(), new)[i * (new.len() + 1) + new.len()] == s[i],
{
    lemma_interleaved(s, new, 0, i);
}

proof fn lemma_interleaved(s: Seq<char>, new: Seq<char>, j: int, i: int)
    requires
        0 <= j <= s.len(),
        j <= i <= s.len(),
    ensures
        interleaved_from(s, new, j).len() == (s.len() - j) + (s.len() - j + 1) * new.len(),
        i < s.len() ==> interleaved_from(s, new, j)[(i - j) * (new.len() + 1) + new.len()] == s[i],
    decreases s.len() - j,
{
    let w = new.len() as int;
    if j < s.len() {
        let m = s.len() - j - 1;
        lemma_interleaved(s, new, j + 1, if i > j { i } else { j + 1 });
        assert((m + 2) * w == w + (m + 1) * w) by (nonlinear_arith);
        let rest = interleaved_from(s, new, j + 1);
        if i > j && i < s.len() {
            let p = (i - j - 1) * (w + 1) + w;
            assert((i - j) * (w + 1) + w == p + w + 1) by (nonlinear_arith)
                requires
                    p == (i - j - 1) * (w + 1) + w,
            ;
            assert(0 <= p < rest.len()) by (nonlinear_arith)
                requires
                    p == (i - j - 1) * (w + 1) + w,
                    rest.len() == m + (m + 1) * w,
                    0 <= i - j - 1 < m,
                    w >= 0,
            ;
            assert(interleaved_from(s, new, j)[p + w + 1] == rest[p]);
        } else if i == j {
            assert(0 * (w + 1) + w == w) by (nonlinear_arith);
        }
    } else {
        assert(0 + (0 + 1) * w == w) by (nonlinear_arith);
    }
}

// ---------------------------------------------------------------------------------------
// Texts and lists
// ---------------------------------------------------------------------------------------

/// `length` and `count` are the number of characters, items or entries; `first` and `last`
/// are what stands at the ends, and undefined where there is nothing.
pub proof fn law_lengths_and_ends(e: AstView, vars: VarsView, fl: Floats)
    ensures
        ({
            let n = value_of(filter_of(e, "length"@), vars, fl);
            let a = value_of(filter_of(e, "first"@), vars, fl);
            let z = value_of(filter_of(e, "last"@), vars, fl);
            &&& value_of(filter_of(e, "count"@), vars, fl) == n
            &&& match value_of(e, vars, fl) {
                Ok(ValueView::Text(s)) => {
                    &&& n == Ok::<ValueView, Fail>(ValueView::Int(s.len() as int))
                    &&& if s.len() == 0 {
                        a == Err::<ValueView, Fail>(Fail::Undefined) && z == Err::<ValueView, Fail>(
                            Fail::Undefined,
                        )
                    } else {
                        a == Ok::<ValueView, Fail>(ValueView::Text(seq![s[0]])) && z == Ok::<
                            ValueView,
                            Fail,
                        >(ValueView::Text(seq![s[s.len() - 1]]))
                    }
                },
                Ok(ValueView::List(l)) => {
                    &&& n == Ok::<ValueView, Fail>(ValueView::Int(l.len() as int))
                    &&& if l.len() == 0 {
                        a == Err::<ValueView, Fail>(Fail::Undefined) && z == Err::<ValueView, Fail>(
                            Fail::Undefined,
                        )
                    } else {
                        a == Ok::<ValueView, Fail>(l[0]) && z == Ok::<ValueView, Fail>(
                            l[l.len() - 1],
                        )
                    }
                },
                Ok(ValueView::Dict(o)) => n == Ok::<ValueView, Fail>(
                    ValueView::Int(o.len() as int),
                ),
                Ok(_) => n is Err && a is Err && z is Err,
                Err(f) => n == Err::<ValueView, Fail>(f),
            }
        }),
{
    lemma_names();
}

/// The list of some texts.
pub open spec fn text_list(ts: Seq<Seq<char>>) -> ValueView {
    ValueView::List(Seq::new(ts.len(), |k: int| ValueView::Text(ts[k])))
}

/// `join` of no text is empty, of one text that text, and of more the first, the separator,
/// and the join of the others. Without an argument nothing separates.
pub proof fn law_join(
    e: AstView,
    d: AstView,
    x: AstView,
    t: Seq<char>,
    ts: Seq<Seq<char>>,
    sep: Seq<char>,
    vars: VarsView,
    fl: Floats,
)
    requires
        value_of(x, vars, fl) == Ok::<ValueView, Fail>(ValueView::Text(sep)),
        value_of(e, vars, fl) == Ok::<ValueView, Fail>(text_list(seq![t] + ts)),
        value_of(d, vars, fl) == Ok::<ValueView, Fail>(text_list(ts)),
    ensures
        value_of(piped(d, "join"@, seq![x]), vars, fl) matches Ok(ValueView::Text(rest)) && (
        ts.len() == 0 ==> rest.len() == 0) && value_of(piped(e, "join"@, seq![x]), vars, fl)
            == Ok::<ValueView, Fail>(
            ValueView::Text(
                if ts.len() == 0 {
                    t
                } else {
                    t + sep + rest
                },
            ),
        ),
        sep.len() == 0 ==> value_of(filter_of(e, "join"@), vars, fl) == value_of(
            piped(e, "join"@, seq![x]),
            vars,
            fl,
        ),
{
    lemma_names();
    assert(seq![x][0] == x);
    let a = text_list(ts)->List_0;
    let b = text_list(seq![t] + ts)->List_0;
    assert(joined(b, 0, sep) == Ok::<Seq<char>, Fail>(Seq::empty()));
    assert(b[0] == ValueView::Text(t));
    assert(joined(b, 1, sep) == Ok::<Seq<char>, Fail>(t));
    if ts.len() > 0 {
        lemma_joined_first(t, ts, sep, ts.len());
    } else {
        assert(joined(a, 0, sep) == Ok::<Seq<char>, Fail>(Seq::empty()));
    }
    if sep.len() == 0 {
        assert(sep =~= Seq::empty());
    }
}

proof fn lemma_joined_first(t: Seq<char>, ts: Seq<Seq<char>>, sep: Seq<char>, n: nat)
    requires
        0 < n <= ts.len(),
    ensures
        joined(text_list(ts)->List_0, n, sep) is Ok,
        joined(text_list(seq![t] + ts)->List_0, n + 1, sep) == Ok::<Seq<char>, Fail>(
            t + sep + joined(text_list(ts)->List_0, n, sep)->Ok_0,
        ),
    decreases n,
{
    let a = text_list(ts)->List_0;
    let b = text_list(seq![t] + ts)->List_0;
    assert(a[n - 1] == ValueView::Text(ts[n - 1]));
    assert(b[n as int] == ValueView::Text(ts[n - 1]));
    if n == 1 {
        assert(joined(a, 0, sep) == Ok::<Seq<char>, Fail>(Seq::empty()));
        assert(joined(b, 0, sep) == Ok::<Seq<char>, Fail>(Seq::empty()));
        assert(b[0] == ValueView::Text(t));
        assert(joined(b, 1, sep) == Ok::<Seq<char>, Fail>(t));
    } else {
        lemma_joined_first(t, ts, sep, (n - 1) as nat);
        let r = joined(a, (n - 1) as nat, sep)->Ok_0;
        assert(t + sep + r + sep + ts[n - 1] =~= t + sep + (r + sep + ts[n - 1]));
    }
}

/// `ternary` takes its first argument for what is true and its second for what is not, what
/// is undefined included; none takes the third, where there is one that is not none.
pub proof fn law_ternary(
    e: AstView,
    yes: AstView,
    no: AstView,
    none: AstView,
    vars: VarsView,
    fl: Floats,
)
    ensures
        ({
            let two = value_of(piped(e, "ternary"@, seq![yes, no]), vars, fl);
            let three = value_of(piped(e, "ternary"@, seq![yes, no, none]), vars, fl);
            match value_of(e, vars, fl) {
                Ok(ValueView::Null) => {
                    &&& two == value_of(no, vars, fl)
                    &&& three == (match value_of(none, vars, fl) {
                        Ok(ValueView::Null) => value_of(no, vars, fl),
                        o => o,
                    })
                },
                Ok(v) => two == three && two == (if is_true(v) {
                    value_of(yes, vars, fl)
                } else {
                    value_of(no, vars, fl)
                }),
                Err(Fail::Undefined) => two == three && two == value_of(no, vars, fl),
                Err(f) => two == Err::<ValueView, Fail>(f) && three == two,
            }
        }),
{
    lemma_names();
    assert(seq![yes, no][0] == yes && seq![yes, no][1] == no);
    assert(seq![yes, no, none][0] == yes && seq![yes, no, none][1] == no && seq![yes, no, none][2]
        == none);
}

// ---------------------------------------------------------------------------------------
// Replacement templates
// ---------------------------------------------------------------------------------------

/// A template without backslashes and dollars is itself; a dollar stands for itself, which
/// the `regex` crate writes twice; `\` and a digit that no other digit follows is a
/// reference to a group; `\` and a character that is neither a digit nor `g` is that
/// character.
pub proof fn law_templates(a: Seq<char>, b: Seq<char>, c: char)
    requires
        !a.contains('$'),
        !a.contains('\\'),
        !is_digit(c),
        c != 'g',
    ensures
        template_from(a, 0) == a,
        template_from(a + seq!['$'] + b, 0) == a + seq!['$', '$'] + template_from(b, 0),
        template_from(a + seq!['\\', c] + b, 0) == a + seq![c] + template_from(b, 0),
        b.len() == 0 || !is_digit(b[0]) ==> template_from(a + seq!['\\', '1'] + b, 0) == a + seq![
            '$',
            '{',
            '1',
            '}',
        ] + template_from(b, 0),
{
    let none = Seq::<char>::empty();
    lemma_template_front(a, none, 0);
    assert(a + none =~= a);
    assert(template_from(none, 0) == none);
    assert(a.skip(0) + none =~= a);
    let x = seq!['$'] + b;
    lemma_template_front(a, x, 0);
    assert(a + seq!['$'] + b =~= a + x);
    lemma_template_skip(x, 1, 0);
    assert(x.skip(1) =~= b);
    assert(a.skip(0) =~= a);
    assert(x[0] == '$');
    assert(a + (seq!['$', '$'] + template_from(b, 0)) =~= a + seq!['$', '$'] + template_from(b, 0));
    let y = seq!['\\', c] + b;
    lemma_template_front(a, y, 0);
    assert(a + seq!['\\', c] + b =~= a + y);
    lemma_template_skip(y, 2, 0);
    assert(y.skip(2) =~= b);
    assert(y[0] == '\\' && y[1] == c);
    assert(a + (seq![c] + template_from(b, 0)) =~= a + seq![c] + template_from(b, 0));
    if b.len() == 0 || !is_digit(b[0]) {
        let z = seq!['\\', '1'] + b;
        lemma_template_front(a, z, 0);
        assert(a + seq!['\\', '1'] + b =~= a + z);
        lemma_template_skip(z, 2, 0);
        assert(z.skip(2) =~= b);
        assert(z[0] == '\\' && z[1] == '1');
        if b.len() > 0 {
            assert(z[2] == b[0]);
        }
        reveal_with_fuel(digits_end, 3);
        assert(digits_end(z, 1) == 2);
        assert(z.subrange(1, 2) =~= seq!['1']);
        let rest = template_from(b, 0);
        assert(seq!['$', '{'] + seq!['1'] + seq!['}'] =~= seq!['$', '{', '1', '}']);
        assert(a + (seq!['$', '{', '1', '}'] + rest) =~= a + seq!['$', '{', '1', '}'] + rest);
    }
}

/// In a template `\` and a number is a reference to the group of that number, and `\g<name>`
/// one to the group of that name.
pub proof fn law_template_references(a: Seq<char>, n: Seq<char>, b: Seq<char>)
    requires
        !a.contains('$'),
        !a.contains('\\'),
        n.len() > 0,
    ensures
        (forall|k: int| 0 <= k < n.len() ==> is_digit(#[trigger] n[k])) && (b.len() == 0
            || !is_digit(b[0])) ==> template_from(a + seq!['\\'] + n + b, 0) == a + seq!['$', '{']
            + n + seq!['}'] + template_from(b, 0),
        !n.contains('>') ==> template_from(a + seq!['\\', 'g', '<'] + n + seq!['>'] + b, 0) == a
            + seq!['$', '{'] + n + seq!['}'] + template_from(b, 0),
{
    let rest = template_from(b, 0);
    let whole = a + seq!['$', '{'] + n + seq!['}'] + rest;
    let m = n.len() as int;
    assert(a.skip(0) =~= a);
    assert(a + (group_reference(n) + rest) =~= whole);
    if (forall|k: int| 0 <= k < n.len() ==> is_digit(#[trigger] n[k])) && (b.len() == 0
        || !is_digit(b[0])) {
        let x = seq!['\\'] + n + b;
        assert(a + seq!['\\'] + n + b =~= a + x);
        lemma_template_front(a, x, 0);
        assert forall|k: int| 1 <= k < 1 + m implies is_digit(#[trigger] x[k]) by {
            assert(x[k] == n[k - 1]);
        }
        assert(x[1] == n[0]);
        if b.len() > 0 {
            assert(x[1 + m] == b[0]);
        }
        lemma_digits_to(x, 1, 1 + m);
        assert(x.subrange(1, 1 + m) =~= n);
        lemma_template_skip(x, 1 + m, 0);
        assert(x.skip(1 + m) =~= b);
    }
    if !n.contains('>') {
        let x = seq!['\\', 'g', '<'] + n + seq!['>'] + b;
        assert(a + seq!['\\', 'g', '<'] + n + seq!['>'] + b =~= a + x);
        lemma_template_front(a, x, 0);
        assert forall|k: int| 3 <= k < 3 + m implies #[trigger] x[k] != '>' by {
            assert(x[k] == n[k - 3]);
            assert(n.contains(n[k - 3]));
        }
        assert(x[0] == '\\' && x[1] == 'g' && x[2] == '<' && x[3 + m] == '>');
        lemma_name_to(x, 3, 3 + m);
        assert(x.subrange(3, 3 + m) =~= n);
        lemma_template_skip(x, 4 + m, 0);
        assert(x.skip(4 + m) =~= b);
    }
}

proof fn lemma_digits_to(s: Seq<char>, i: int, j: int)
    requires
        0 <= i <= j <= s.len(),
        forall|k: int| i <= k < j ==> is_digit(#[trigger] s[k]),
        j == s.len() || !is_digit(s[j]),
    ensures
        digits_end(s, i) == j,
    decreases j - i,
{
    if i < j {
        lemma_digits_to(s, i + 1, j);
    }
}

proof fn lemma_name_to(s: Seq<char>, i: int, j: int)
    requires
        0 <= i <= j < s.len(),
        forall|k: int| i <= k < j ==> #[trigger] s[k] != '>',
        s[j] == '>',
    ensures
        name_end(s, i) == j,
    decreases j - i,
{
    if i < j {
        lemma_name_to(s, i + 1, j);
    }
}

proof fn lemma_template_front(a: Seq<char>, b: Seq<char>, i: int)
    requires
        0 <= i <= a.len(),
        !a.contains('$'),
        !a.contains('\\'),
    ensures
        template_from(a + b, i) == a.skip(i) + template_from(b, 0),
    decreases a.len() - i,
{
    let s = a + b;
    if i < a.len() {
        assert(s[i] == a[i]);
        assert(a.contains(a[i]));
        lemma_template_front(a, b, i + 1);
        assert(seq![a[i]] + (a.skip(i + 1) + template_from(b, 0)) =~= a.skip(i) + template_from(b, 0));
    } else {
        lemma_template_skip(s, i, 0);
        assert(s.skip(i) =~= b);
        assert(a.skip(i) + template_from(b, 0) =~= template_from(b, 0));
    }
}

/// `regex_replace(pattern, template)` gives what the `regex` crate makes of the text, with the
/// pattern as it is and the template in its syntax; a pattern that it refuses fails.
pub proof fn law_regex_replace(
    e: AstView,
    x: AstView,
    y: AstView,
    s: Seq<char>,
    pattern: Seq<char>,
    rep: Seq<char>,
    vars: VarsView,
    fl: Floats,
)
    requires
        value_of(e, vars, fl) == Ok::<ValueView, Fail>(ValueView::Text(s)),
        value_of(x, vars, fl) == Ok::<ValueView, Fail>(ValueView::Text(pattern)),
        value_of(y, vars, fl) == Ok::<ValueView, Fail>(ValueView::Text(rep)),
    ensures
        match regex_replaced(pattern, s, template_from(rep, 0)) {
            Ok(t) => value_of(piped(e, "regex_replace"@, seq![x, y]), vars, fl) == Ok::<
                ValueView,
                Fail,
            >(ValueView::Text(t)),
            Err(_) => value_of(piped(e, "regex_replace"@, seq![x, y]), vars, fl) matches Err(
                Fail::Runtime(_),
            ),
        },
{
    lemma_names();
    assert(seq![x, y][0] == x && seq![x, y][1] == y);
}

/// Reading a template from a position is reading what stands from there on.
proof fn lemma_template_skip(s: Seq<char>, i: int, k: int)
    requires
        0 <= i,
        0 <= k,
        i + k <= s.len(),
    ensures
        template_from(s, i + k) == template_from(s.skip(i), k),
    decreases s.len() - i - k,
{
    let r = s.skip(i);
    let p = i + k;
    if p < s.len() {
        assert(r[k] == s[p]);
        if s[p] == '$' {
            lemma_template_skip(s, i, k + 1);
        } else if s[p] == '\\' && p + 1 < s.len() {
            assert(r[k + 1] == s[p + 1]);
            if is_digit(s[p + 1]) {
                lemma_digits_skip(s, i, k + 1);
                let j = digits_end(s, p + 1);
                assert(s.subrange(p + 1, j) =~= r.subrange(k + 1, j - i));
                lemma_template_skip(s, i, j - i);
            } else if s[p + 1] == 'g' && p + 2 < s.len() && s[p + 2] == '<' {
                assert(r[k + 2] == s[p + 2]);
                lemma_name_skip(s, i, k + 3);
                let j = name_end(s, p + 3);
                assert(s.subrange(p + 3, j) =~= r.subrange(k + 3, j - i));
                if j < s.len() {
                    lemma_template_skip(s, i, j + 1 - i);
                } else {
                    lemma_template_skip(s, i, j - i);
                }
            } else {
                if p + 2 < s.len() {
                    assert(r[k + 2] == s[p + 2]);
                }
                lemma_template_skip(s, i, k + 2);
            }
        } else {
            lemma_template_skip(s, i, k + 1);
        }
    }
}

proof fn lemma_digits_skip(s: Seq<char>, i: int, k: int)
    requires
        0 <= i,
        0 <= k,
        i + k <= s.len(),
    ensures
        digits_end(s, i + k) == i + digits_end(s.skip(i), k),
        i + k <= digits_end(s, i + k) <= s.len(),
        i + k < s.len() && is_digit(s[i + k]) ==> i + k < digits_end(s, i + k),
    decreases s.len() - i - k,
{
    if i + k < s.len() {
        assert(s.skip(i)[k] == s[i + k]);
        if is_digit(s[i + k]) {
            lemma_digits_skip(s, i, k + 1);
        }
    }
}

proof fn lemma_name_skip(s: Seq<char>, i: int, k: int)
    requires
        0 <= i,
        0 <= k,
        i + k <= s.len(),
    ensures
        name_end(s, i + k) == i + name_end(s.skip(i), k),
        i + k <= name_end(s, i + k) <= s.len(),
    decreases s.len() - i - k,
{
    if i + k < s.len() {
        assert(s.skip(i)[k] == s[i + k]);
        if s[i + k] != '>' {
            lemma_name_skip(s, i, k + 1);
        }
    }
}

} // verus!
