//! Python literals: `True`, `False`, `None`, integers, floats, quoted strings, lists,
//! tuples and dicts. A text that is not wholly a literal has no value; a tuple becomes a
//! list.

use vstd::prelude::*;
use crate::assoc::{overlay, put, Name};
use crate::text::{all_digits, chars_of, dec, dec_nat, digits_from, find_from, is_digit, is_space, law_decimal_reads_back, lemma_dec_nat, lemma_find_char, parse_i64, parse_i64_spec, same, space, text_span};
use crate::value::{float_text, float_view, int_value, json_text, lemma_list_view, read_float, values, Number, Value, ValueView, VarMap, VarsView};

verus! {

/// The first position from `p` on that holds no white space.
pub open spec fn skip_ws(s: Seq<char>, p: int) -> int
    decreases s.len() - p,
{
    if 0 <= p < s.len() && is_space(s[p]) {
        skip_ws(s, p + 1)
    } else {
        p
    }
}

/// `s` holds `c` at `p`.
pub open spec fn is_at(s: Seq<char>, p: int, c: char) -> bool {
    0 <= p < s.len() && s[p] == c
}

/// What a backslash and a character stand for in a string.
pub open spec fn unescaped(c: char) -> char {
    if c == 'n' {
        '\n'
    } else if c == 't' {
        '\t'
    } else if c == 'r' {
        '\r'
    } else {
        c
    }
}

/// The rest of a string from `p` on, up to its closing quote, and where it ends.
pub open spec fn lit_string(s: Seq<char>, p: int, quote: char) -> Option<(Seq<char>, int)>
    decreases s.len() - p,
{
    if p < 0 || p >= s.len() {
        None
    } else if s[p] == '\\' {
        if p + 1 >= s.len() {
            None
        } else {
            match lit_string(s, p + 2, quote) {
                Some((t, q)) => Some((seq![unescaped(s[p + 1])] + t, q)),
                None => None,
            }
        }
    } else if s[p] == quote {
        Some((Seq::empty(), p + 1))
    } else {
        match lit_string(s, p + 1, quote) {
            Some((t, q)) => Some((seq![s[p]] + t, q)),
            None => None,
        }
    }
}

/// A character that ends a bare token.
pub open spec fn ends_atom(c: char) -> bool {
    is_space(c) || c == ',' || c == ']' || c == '}' || c == ')' || c == ':'
}

/// Where the bare token from `p` on ends.
pub open spec fn atom_end(s: Seq<char>, p: int) -> int
    decreases s.len() - p,
{
    if 0 <= p < s.len() && !ends_atom(s[p]) {
        atom_end(s, p + 1)
    } else {
        p
    }
}

/// A token without its sign.
pub open spec fn unsigned_part(t: Seq<char>) -> Seq<char> {
    if t.len() > 0 && (t[0] == '+' || t[0] == '-') {
        t.drop_first()
    } else {
        t
    }
}

/// The number a token writes: an integer has no leading zeros and fits `i64`, a float has a
/// point or an exponent and is finite.
pub open spec fn lit_number(t: Seq<char>) -> Option<ValueView> {
    number_of(t, float_text(t))
}

/// The number a token writes, given what it reads as when it is taken for a float.
pub open spec fn number_of(t: Seq<char>, float: Option<Option<Seq<char>>>) -> Option<ValueView> {
    let body = unsigned_part(t);
    if body.len() > 0 && all_digits(body) {
        if body.len() > 1 && body[0] == '0' {
            None
        } else {
            match parse_i64_spec(t) {
                Some(i) => Some(ValueView::Int(i as int)),
                None => None,
            }
        }
    } else if body.contains('.') || body.contains('e') || body.contains('E') {
        match float {
            Some(Some(f)) => Some(ValueView::Float(f)),
            _ => None,
        }
    } else {
        None
    }
}

/// The value of a bare token.
pub open spec fn lit_atom(t: Seq<char>) -> Option<ValueView> {
    if t == "True"@ {
        Some(ValueView::Bool(true))
    } else if t == "False"@ {
        Some(ValueView::Bool(false))
    } else if t == "None"@ {
        Some(ValueView::Null)
    } else {
        lit_number(t)
    }
}

/// The literal that starts at `p`, white space aside, and where it ends.
pub open spec fn lit_value(s: Seq<char>, p: int) -> Option<(ValueView, int)>
    decreases s.len() - p, 0nat,
    when 0 <= p <= s.len() via lit_value_ends
{
    let b = skip_ws(s, p);
    if b >= s.len() {
        None
    } else if s[b] == '\'' || s[b] == '"' {
        match lit_string(s, b + 1, s[b]) {
            Some((t, q)) => Some((ValueView::Text(t), q)),
            None => None,
        }
    } else if s[b] == '[' || s[b] == '(' {
        let close = if s[b] == '[' {
            ']'
        } else {
            ')'
        };
        let a = skip_ws(s, b + 1);
        if is_at(s, a, close) {
            Some((ValueView::List(Seq::empty()), a + 1))
        } else {
            match lit_items(s, a, close) {
                Some((items, q)) => Some((ValueView::List(items), q)),
                None => None,
            }
        }
    } else if s[b] == '{' {
        let a = skip_ws(s, b + 1);
        if is_at(s, a, '}') {
            Some((ValueView::Dict(Seq::empty()), a + 1))
        } else {
            match lit_entries(s, a) {
                Some((entries, q)) => Some((ValueView::Dict(overlay(Seq::empty(), entries)), q)),
                None => None,
            }
        }
    } else {
        let q = atom_end(s, b);
        match lit_atom(s.subrange(b, q)) {
            Some(v) => Some((v, q)),
            None => None,
        }
    }
}

/// The items from `p` on up to the closing character, and where that ends; a comma may
/// stand before it.
pub open spec fn lit_items(s: Seq<char>, p: int, close: char) -> Option<(Seq<ValueView>, int)>
    decreases s.len() - p, 1nat,
    when 0 <= p <= s.len() via lit_items_ends
{
    match lit_value(s, p) {
        Some((v, q0)) if p < q0 <= s.len() => {
            let q = skip_ws(s, q0);
            if is_at(s, q, close) {
                Some((seq![v], q + 1))
            } else if is_at(s, q, ',') {
                let n = skip_ws(s, q + 1);
                if is_at(s, n, close) {
                    Some((seq![v], n + 1))
                } else {
                    match lit_items(s, n, close) {
                        Some((more, e)) => Some((seq![v] + more, e)),
                        None => None,
                    }
                }
            } else {
                None
            }
        },
        _ => None,
    }
}

/// A dict key as text: a string is itself, a number and what else is a word is written as
/// in Python, and a list or dict as JSON.
pub open spec fn key_text(v: ValueView) -> Name {
    match v {
        ValueView::Text(t) => t,
        ValueView::Bool(b) => if b {
            "True"@
        } else {
            "False"@
        },
        ValueView::Null => "None"@,
        other => json_text(other),
    }
}

/// The entries from `p` on up to the closing brace, and where that ends; a comma may stand
/// before it.
pub open spec fn lit_entries(s: Seq<char>, p: int) -> Option<(VarsView, int)>
    decreases s.len() - p, 1nat,
    when 0 <= p <= s.len() via lit_entries_ends
{
    match lit_value(s, p) {
        Some((k, q0)) if p < q0 <= s.len() => {
            let c = skip_ws(s, q0);
            if !is_at(s, c, ':') {
                None
            } else {
                match lit_value(s, c + 1) {
                    Some((v, q1)) if c < q1 <= s.len() => {
                        let q = skip_ws(s, q1);
                        let e = (key_text(k), v);
                        if is_at(s, q, '}') {
                            Some((seq![e], q + 1))
                        } else if is_at(s, q, ',') {
                            let n = skip_ws(s, q + 1);
                            if is_at(s, n, '}') {
                                Some((seq![e], n + 1))
                            } else {
                                match lit_entries(s, n) {
                                    Some((more, end)) => Some((seq![e] + more, end)),
                                    None => None,
                                }
                            }
                        } else {
                            None
                        }
                    },
                    _ => None,
                }
            }
        },
        _ => None,
    }
}

/// The value of a text that is wholly a literal.
pub open spec fn literal(s: Seq<char>) -> Option<ValueView> {
    match lit_value(s, 0) {
        Some((v, q)) => if skip_ws(s, q) == s.len() {
            Some(v)
        } else {
            None
        },
        None => None,
    }
}

/// Skipping white space goes forward and stays in the text.
pub proof fn lemma_skip_ws(s: Seq<char>, p: int)
    requires
        0 <= p <= s.len(),
    ensures
        p <= skip_ws(s, p) <= s.len(),
    decreases s.len() - p,
{
    if p < s.len() && is_space(s[p]) {
        lemma_skip_ws(s, p + 1);
    }
}

proof fn lemma_skip_forward(s: Seq<char>)
    ensures
        forall|p: int| 0 <= p <= s.len() ==> p <= #[trigger] skip_ws(s, p) <= s.len(),
{
    assert forall|p: int| 0 <= p <= s.len() implies p <= #[trigger] skip_ws(s, p) <= s.len() by {
        lemma_skip_ws(s, p);
    }
}

#[via_fn]
proof fn lit_value_ends(s: Seq<char>, p: int) {
    lemma_skip_forward(s);
}

#[via_fn]
proof fn lit_items_ends(s: Seq<char>, p: int, close: char) {
    lemma_skip_forward(s);
}

#[via_fn]
proof fn lit_entries_ends(s: Seq<char>, p: int) {
    lemma_skip_forward(s);
}

/// Skips white space.
pub fn skip_from(cs: &Vec<char>, p: usize) -> (r: usize)
    requires
        p <= cs.len(),
    ensures
        r == skip_ws(cs@, p as int),
        p <= r <= cs.len(),
{
    let mut i: usize = p;
    while i < cs.len() && space(cs[i])
        invariant
            p <= i <= cs.len(),
            skip_ws(cs@, p as int) == skip_ws(cs@, i as int),
        decreases cs.len() - i,
    {
        i += 1;
    }
    i
}

/// Whether `c` stands at `p`.
fn stands(cs: &Vec<char>, p: usize, c: char) -> (r: bool)
    ensures
        r == is_at(cs@, p as int, c),
{
    p < cs.len() && cs[p] == c
}

/// What a parse found, as mathematics.
spec fn got(r: Option<(Value, usize)>) -> Option<(ValueView, int)> {
    match r {
        Some((v, q)) => Some((v@, q as int)),
        None => None,
    }
}

/// Reads the rest of a string.
fn parse_string(cs: &Vec<char>, p: usize, quote: char) -> (r: Option<(String, usize)>)
    requires
        p <= cs.len(),
    ensures
        (match r {
            Some((t, q)) => Some((t@, q as int)),
            None => None,
        }) == lit_string(cs@, p as int, quote),
        r matches Some((t, q)) ==> p < q <= cs.len(),
{
    let mut out = String::new();
    let mut i: usize = p;
    assert(match lit_string(cs@, p as int, quote) {
        Some((t, q)) => out@ + t =~= t,
        None => true,
    });
    loop
        invariant
            p <= i <= cs.len(),
            lit_string(cs@, p as int, quote) == (match lit_string(cs@, i as int, quote) {
                Some((t, q)) => Some((out@ + t, q)),
                None => None,
            }),
        decreases cs.len() - i,
    {
        if i >= cs.len() {
            return None;
        }
        let c = cs[i];
        let ghost before = out@;
        if c == '\\' {
            if i + 1 >= cs.len() {
                return None;
            }
            let e = cs[i + 1];
            let x = if e == 'n' {
                '\n'
            } else if e == 't' {
                '\t'
            } else if e == 'r' {
                '\r'
            } else {
                e
            };
            out.push(x);
            i += 2;
            assert(match lit_string(cs@, i as int, quote) {
                Some((t, q)) => before + (seq![x] + t) =~= out@ + t,
                None => true,
            });
        } else if c == quote {
            assert(before + Seq::<char>::empty() =~= before);
            return Some((out, i + 1));
        } else {
            out.push(c);
            i += 1;
            assert(match lit_string(cs@, i as int, quote) {
                Some((t, q)) => before + (seq![c] + t) =~= out@ + t,
                None => true,
            });
        }
    }
}

/// Whether a character stands anywhere from `p` on.
fn has_from(cs: &Vec<char>, p: usize, c: char) -> (r: bool)
    requires
        p <= cs.len(),
    ensures
        r == cs@.skip(p as int).contains(c),
{
    let i = find_from(cs, p, c);
    proof {
        lemma_find_char(cs@.skip(p as int), c);
    }
    i < cs.len()
}

/// Reads a token as a number.
fn parse_number(tok: &str) -> (r: Option<Value>)
    ensures
        (match r {
            Some(v) => Some(v@),
            None => None,
        }) == lit_number(tok@),
{
    number_value(tok, read_float(tok))
}

/// Reads a token as a number, given what it reads as when it is taken for a float: `None`
/// where it is no float, `Some(None)` where the float is not finite, else its text.
pub fn number_value(tok: &str, float: Option<Option<String>>) -> (r: Option<Value>)
    ensures
        (match r {
            Some(v) => Some(v@),
            None => None,
        }) == number_of(tok@, float_view(float)),
{
    let cs = chars_of(tok);
    let from: usize = if cs.len() > 0 && (cs[0] == '+' || cs[0] == '-') {
        1
    } else {
        0
    };
    assert(cs@.skip(from as int) =~= unsigned_part(tok@));
    if cs.len() > from && digits_from(&cs, from) {
        if cs.len() > from + 1 && cs[from] == '0' {
            return None;
        }
        match parse_i64(tok) {
            Some(i) => Some(int_value(i)),
            None => None,
        }
    } else if has_from(&cs, from, '.') || has_from(&cs, from, 'e') || has_from(&cs, from, 'E') {
        match float {
            Some(Some(f)) => Some(Value::Number(Number::Float(f))),
            _ => None,
        }
    } else {
        None
    }
}

/// Reads a bare token: a name of a constant, or a number.
fn parse_atom(cs: &Vec<char>, p: usize) -> (r: Option<(Value, usize)>)
    requires
        p < cs.len(),
    ensures
        got(r) == (match lit_atom(cs@.subrange(p as int, atom_end(cs@, p as int))) {
            Some(v) => Some((v, atom_end(cs@, p as int))),
            None => None,
        }),
        r matches Some((v, q)) ==> p < q <= cs.len(),
{
    let mut i: usize = p;
    while i < cs.len() && !(space(cs[i]) || cs[i] == ',' || cs[i] == ']' || cs[i] == '}' || cs[i]
        == ')' || cs[i] == ':')
        invariant
            p <= i <= cs.len(),
            atom_end(cs@, p as int) == atom_end(cs@, i as int),
        decreases cs.len() - i,
    {
        i += 1;
    }
    let tok = text_span(cs, p, i);
    proof {
        reveal_strlit("True");
        reveal_strlit("False");
        reveal_strlit("None");
    }
    if same(tok.as_str(), "True") {
        return Some((Value::Bool(true), i));
    }
    if same(tok.as_str(), "False") {
        return Some((Value::Bool(false), i));
    }
    if same(tok.as_str(), "None") {
        return Some((Value::Null, i));
    }
    assert(i == p ==> lit_number(tok@) is None);
    match parse_number(tok.as_str()) {
        Some(v) => Some((v, i)),
        None => None,
    }
}

/// Reads the literal at a position.
fn parse_value(cs: &Vec<char>, p: usize) -> (r: Option<(Value, usize)>)
    requires
        p <= cs.len(),
    ensures
        got(r) == lit_value(cs@, p as int),
        r matches Some((v, q)) ==> p < q <= cs.len(),
    decreases cs.len() - p, 0nat,
{
    let b = skip_from(cs, p);
    if b >= cs.len() {
        return None;
    }
    let c = cs[b];
    if c == '\'' || c == '"' {
        match parse_string(cs, b + 1, c) {
            Some((t, q)) => Some((Value::Text(t), q)),
            None => None,
        }
    } else if c == '[' || c == '(' {
        let close = if c == '[' {
            ']'
        } else {
            ')'
        };
        let a = skip_from(cs, b + 1);
        if stands(cs, a, close) {
            let items: Vec<Value> = Vec::new();
            proof {
                lemma_list_view(items);
                assert(values(items@) =~= Seq::empty());
            }
            return Some((Value::List(items), a + 1));
        }
        match parse_seq(cs, a, close) {
            Some((items, q)) => {
                proof {
                    lemma_list_view(items);
                }
                Some((Value::List(items), q))
            },
            None => None,
        }
    } else if c == '{' {
        let a = skip_from(cs, b + 1);
        if stands(cs, a, '}') {
            return Some((Value::Dict(VarMap::new()), a + 1));
        }
        match parse_dict(cs, a) {
            Some((map, q)) => Some((Value::Dict(map), q)),
            None => None,
        }
    } else {
        parse_atom(cs, b)
    }
}

/// Reads the items of a list or tuple.
fn parse_seq(cs: &Vec<char>, p: usize, close: char) -> (r: Option<(Vec<Value>, usize)>)
    requires
        p <= cs.len(),
    ensures
        (match r {
            Some((items, q)) => Some((values(items@), q as int)),
            None => None,
        }) == lit_items(cs@, p as int, close),
        r matches Some((items, q)) ==> p < q <= cs.len(),
    decreases cs.len() - p, 1nat,
{
    let mut items: Vec<Value> = Vec::new();
    let mut i: usize = p;
    assert(match lit_items(cs@, p as int, close) {
        Some((more, e)) => values(items@) + more =~= more,
        None => true,
    });
    loop
        invariant
            p <= i <= cs.len(),
            lit_items(cs@, p as int, close) == (match lit_items(cs@, i as int, close) {
                Some((more, e)) => Some((values(items@) + more, e)),
                None => None,
            }),
        decreases cs.len() - i,
    {
        let ghost before = values(items@);
        match parse_value(cs, i) {
            Some((v, q0)) => {
                items.push(v);
                assert(values(items@) =~= before + seq![v@]);
                let q = skip_from(cs, q0);
                if stands(cs, q, close) {
                    return Some((items, q + 1));
                }
                if !stands(cs, q, ',') {
                    return None;
                }
                let n = skip_from(cs, q + 1);
                if stands(cs, n, close) {
                    return Some((items, n + 1));
                }
                assert(match lit_items(cs@, n as int, close) {
                    Some((more, e)) => before + (seq![v@] + more) =~= values(items@) + more,
                    None => true,
                });
                i = n;
            },
            None => {
                return None;
            },
        }
    }
}

/// Putting entries one after the other.
proof fn lemma_overlay_first(m: VarsView, e: (Name, ValueView), more: VarsView)
    ensures
        overlay(m, seq![e] + more) == overlay(put(m, e.0, e.1), more),
        overlay(m, seq![e]) == put(m, e.0, e.1),
    decreases more.len(),
{
    reveal_with_fuel(overlay, 2);
    let all = seq![e] + more;
    assert(seq![e].drop_last() =~= Seq::empty());
    if more.len() == 0 {
        assert(all =~= seq![e]);
    } else {
        lemma_overlay_first(m, e, more.drop_last());
        assert(all.drop_last() =~= seq![e] + more.drop_last());
    }
}

/// Reads the entries of a dict.
fn parse_dict(cs: &Vec<char>, p: usize) -> (r: Option<(VarMap, usize)>)
    requires
        p <= cs.len(),
    ensures
        (match r {
            Some((m, q)) => Some((m@, q as int)),
            None => None,
        }) == (match lit_entries(cs@, p as int) {
            Some((entries, q)) => Some((overlay(Seq::empty(), entries), q)),
            None => None,
        }),
        r matches Some((m, q)) ==> p < q <= cs.len(),
    decreases cs.len() - p, 1nat,
{
    let mut map = VarMap::new();
    let mut i: usize = p;
    loop
        invariant
            p <= i <= cs.len(),
            (match lit_entries(cs@, p as int) {
                Some((entries, q)) => Some((overlay(Seq::empty(), entries), q)),
                None => None,
            }) == (match lit_entries(cs@, i as int) {
                Some((entries, q)) => Some((overlay(map@, entries), q)),
                None => None,
            }),
        decreases cs.len() - i,
    {
        let ghost before = map@;
        let (k, q0) = match parse_value(cs, i) {
            Some(x) => x,
            None => {
                return None;
            },
        };
        let ghost kv = k@;
        let key = match k {
            Value::Text(t) => t,
            Value::Bool(b) => if b {
                "True".to_owned()
            } else {
                "False".to_owned()
            },
            Value::Null => "None".to_owned(),
            other => other.to_json_text(),
        };
        assert(key@ == key_text(kv));
        let c = skip_from(cs, q0);
        if !stands(cs, c, ':') {
            return None;
        }
        let (v, q1) = match parse_value(cs, c + 1) {
            Some(x) => x,
            None => {
                return None;
            },
        };
        let ghost e = (key@, v@);
        map.insert(key, v);
        proof {
            lemma_overlay_first(before, e, Seq::empty());
        }
        let q = skip_from(cs, q1);
        if stands(cs, q, '}') {
            return Some((map, q + 1));
        }
        if !stands(cs, q, ',') {
            return None;
        }
        let n = skip_from(cs, q + 1);
        if stands(cs, n, '}') {
            return Some((map, n + 1));
        }
        proof {
            match lit_entries(cs@, n as int) {
                Some((more, end)) => {
                    lemma_overlay_first(before, e, more);
                },
                None => {},
            }
        }
        i = n;
    }
}

/// Reads a text as a Python literal; `None` where it is not wholly one.
pub fn literal_eval(s: &str) -> (r: Option<Value>)
    ensures
        (match r {
            Some(v) => Some(v@),
            None => None,
        }) == literal(s@),
{
    let cs = chars_of(s);
    match parse_value(&cs, 0) {
        Some((v, q)) => if skip_from(&cs, q) == cs.len() {
            Some(v)
        } else {
            None
        },
        None => None,
    }
}

// ---------------------------------------------------------------------------------------
// Laws
// ---------------------------------------------------------------------------------------

/// A text without white space and without what ends a token is one token.
proof fn lemma_one_token(s: Seq<char>, p: int)
    requires
        0 <= p <= s.len(),
        forall|k: int| 0 <= k < s.len() ==> !ends_atom(#[trigger] s[k]),
    ensures
        atom_end(s, p) == s.len(),
    decreases s.len() - p,
{
    if p < s.len() {
        assert(!ends_atom(s[p]));
        lemma_one_token(s, p + 1);
    }
}

/// A text of digits, with or without a sign before them, is read as one token.
proof fn lemma_number_token(s: Seq<char>)
    requires
        unsigned_part(s).len() > 0,
        all_digits(unsigned_part(s)),
    ensures
        literal(s) == lit_number(s),
{
    reveal_strlit("True");
    reveal_strlit("False");
    reveal_strlit("None");
    let u = unsigned_part(s);
    assert(is_digit(u[0]));
    assert forall|k: int| 0 <= k < s.len() implies !ends_atom(#[trigger] s[k]) by {
        if u.len() == s.len() {
            assert(s[k] == u[k]);
            assert(is_digit(u[k]));
        } else if k > 0 {
            assert(s[k] == u[k - 1]);
            assert(is_digit(u[k - 1]));
        }
    }
    if u.len() == s.len() {
        assert(s[0] == u[0]);
    }
    assert(!ends_atom(s[0]));
    assert(skip_ws(s, 0) == 0);
    lemma_one_token(s, 0);
    assert(s.subrange(0, s.len() as int) =~= s);
    assert(s != "True"@ && s != "False"@ && s != "None"@) by {
        assert(is_digit(s[0]) || s[0] == '+' || s[0] == '-');
        assert("True"@[0] == 'T' && "False"@[0] == 'F' && "None"@[0] == 'N');
    }
    assert(skip_ws(s, s.len() as int) == s.len());
}

/// An integer in decimal is the literal of that integer.
pub proof fn law_integers_read_back(i: i64)
    ensures
        literal(dec(i as int)) == Some(ValueView::Int(i as int)),
{
    let s = dec(i as int);
    let n: nat = if i < 0 {
        (-i) as nat
    } else {
        i as nat
    };
    lemma_dec_nat(n);
    law_decimal_reads_back(i as int);
    assert(is_digit(dec_nat(n)[0]));
    assert(unsigned_part(s) =~= dec_nat(n));
    lemma_number_token(s);
    if dec_nat(n).len() > 1 && dec_nat(n)[0] == '0' {
        assert(n == 0);
        assert(dec_nat(0).len() == 1);
    }
}

/// Digits with a leading zero are no literal.
pub proof fn law_leading_zeros_are_no_number(s: Seq<char>)
    requires
        s.len() > 1,
        all_digits(s),
        s[0] == '0',
    ensures
        literal(s) is None,
{
    assert(unsigned_part(s) == s);
    lemma_number_token(s);
}

proof fn lemma_quoted(s: Seq<char>, t: Seq<char>, quote: char, p: int)
    requires
        s == seq![quote] + t + seq![quote],
        !t.contains(quote),
        !t.contains('\\'),
        quote != '\\',
        0 <= p <= t.len(),
    ensures
        lit_string(s, p + 1, quote) == Some((t.skip(p), s.len() as int)),
    decreases t.len() - p,
{
    if p == t.len() {
        assert(s[p + 1] == quote);
        assert(t.skip(p) =~= Seq::empty());
    } else {
        assert(s[p + 1] == t[p]);
        assert(t.contains(t[p]));
        lemma_quoted(s, t, quote, p + 1);
        assert(t.skip(p) =~= seq![t[p]] + t.skip(p + 1));
    }
}

/// A text between quotes is the literal of that text, where it holds neither such a quote
/// nor a backslash.
pub proof fn law_quoted_text(t: Seq<char>, quote: char)
    requires
        quote == '\'' || quote == '"',
        !t.contains(quote),
        !t.contains('\\'),
    ensures
        literal(seq![quote] + t + seq![quote]) == Some(ValueView::Text(t)),
{
    let s = seq![quote] + t + seq![quote];
    assert(s[0] == quote);
    assert(skip_ws(s, 0) == 0);
    lemma_quoted(s, t, quote, 0);
    assert(t.skip(0) =~= t);
    assert(skip_ws(s, s.len() as int) == s.len());
}

} // verus!
