//! Python literals read back: what a value is written as is the literal of that value.

use vstd::prelude::*;
use crate::assoc::{distinct, holds, lemma_pos, overlay, pos, Name};
use crate::literal_eval::{atom_end, ends_atom, is_at, key_text, lemma_skip_ws, lit_atom, lit_entries, lit_items, lit_string, lit_value, literal, skip_ws, unsigned_part};
use crate::text::{all_digits, dec, dec_nat, is_digit, is_space, law_decimal_reads_back, lemma_dec_nat, parse_i64_spec};
use crate::value::{float_text, ValueView, VarsView};

verus! {

// ---------------------------------------------------------------------------------------
// Writing
// ---------------------------------------------------------------------------------------

/// A character as it is written between single quotes.
pub open spec fn written_char(c: char) -> Seq<char> {
    if c == '\n' {
        seq!['\\', 'n']
    } else if c == '\t' {
        seq!['\\', 't']
    } else if c == '\r' {
        seq!['\\', 'r']
    } else if c == '\\' || c == '\'' {
        seq!['\\', c]
    } else {
        seq![c]
    }
}

/// A text as it is written between single quotes.
pub open spec fn written_chars(t: Seq<char>) -> Seq<char>
    decreases t.len(),
{
    if t.len() == 0 {
        Seq::empty()
    } else {
        written_char(t[0]) + written_chars(t.drop_first())
    }
}

/// A text as a literal.
pub open spec fn written_text(t: Seq<char>) -> Seq<char> {
    seq!['\''] + written_chars(t) + seq!['\'']
}

/// Literals one after the other, with a comma and a space between them.
pub open spec fn listed(ls: Seq<Seq<char>>) -> Seq<char>
    decreases ls.len(),
{
    if ls.len() == 0 {
        Seq::empty()
    } else if ls.len() == 1 {
        ls[0]
    } else {
        ls[0] + seq![',', ' '] + listed(ls.drop_first())
    }
}

/// The literal of a value. (Floats are left out: how they are written is not said here.)
pub open spec fn written(v: ValueView) -> Seq<char>
    decreases v, 0nat,
{
    match v {
        ValueView::Null => "None"@,
        ValueView::Bool(b) => if b {
            "True"@
        } else {
            "False"@
        },
        ValueView::Int(i) => dec(i),
        ValueView::Float(t) => t,
        ValueView::Text(t) => written_text(t),
        ValueView::List(a) => seq!['['] + listed(written_items(a, a.len())) + seq![']'],
        ValueView::Dict(o) => seq!['{'] + listed(written_entries(o, o.len())) + seq!['}'],
    }
}

/// The literals of the first `n` values of a list.
pub open spec fn written_items(a: Seq<ValueView>, n: nat) -> Seq<Seq<char>>
    decreases a, n,
{
    if n == 0 || n > a.len() {
        Seq::empty()
    } else {
        written_items(a, (n - 1) as nat).push(written(a[n - 1]))
    }
}

/// The first `n` entries of a map, as a dict writes them.
pub open spec fn written_entries(o: VarsView, n: nat) -> Seq<Seq<char>>
    decreases o, n,
{
    if n == 0 || n > o.len() {
        Seq::empty()
    } else {
        written_entries(o, (n - 1) as nat).push(
            written_text(o[n - 1].0) + seq![':', ' '] + written(o[n - 1].1),
        )
    }
}

proof fn lemma_written_items(a: Seq<ValueView>, n: nat)
    requires
        n <= a.len(),
    ensures
        written_items(a, n) == Seq::new(n, |k: int| written(a[k])),
    decreases n,
{
    if n > 0 {
        lemma_written_items(a, (n - 1) as nat);
    }
    assert(written_items(a, n) =~= Seq::new(n, |k: int| written(a[k])));
}

proof fn lemma_written_entries(o: VarsView, n: nat)
    requires
        n <= o.len(),
    ensures
        written_entries(o, n) == Seq::new(
            n,
            |k: int| written_text(o[k].0) + seq![':', ' '] + written(o[k].1),
        ),
    decreases n,
{
    if n > 0 {
        lemma_written_entries(o, (n - 1) as nat);
    }
    assert(written_entries(o, n) =~= Seq::new(
        n,
        |k: int| written_text(o[k].0) + seq![':', ' '] + written(o[k].1),
    ));
}

/// A value that can be written: its integers have 64 bits, no float is in it, and no map in
/// it has a key twice.
pub open spec fn writable(v: ValueView) -> bool
    decreases v,
{
    match v {
        ValueView::Int(i) => i64::MIN <= i <= i64::MAX,
        ValueView::Float(_) => false,
        ValueView::List(a) => forall|k: int| 0 <= k < a.len() ==> writable(#[trigger] a[k]),
        ValueView::Dict(o) => distinct(o) && forall|k: int|
            0 <= k < o.len() ==> writable((#[trigger] o[k]).1),
        _ => true,
    }
}

// ---------------------------------------------------------------------------------------
// Standing alone
// ---------------------------------------------------------------------------------------

/// What may follow a literal.
pub open spec fn delimited(post: Seq<char>) -> bool {
    post.len() > 0 ==> ends_atom(post[0])
}

/// `l` is the literal of `v` wherever it stands.
#[verifier::opaque]
pub open spec fn stands_alone(l: Seq<char>, v: ValueView) -> bool {
    &&& l.len() > 0
    &&& !is_space(l[0])
    &&& l[0] != ']' && l[0] != ')' && l[0] != '}'
    &&& forall|pre: Seq<char>, post: Seq<char>|
        delimited(post) ==> #[trigger] lit_value(pre + l + post, pre.len() as int) == Some(
            (v, (pre.len() + l.len()) as int),
        )
}

/// What a literal that stands alone is read as.
proof fn lemma_use(l: Seq<char>, v: ValueView, pre: Seq<char>, post: Seq<char>)
    requires
        stands_alone(l, v),
        delimited(post),
    ensures
        lit_value(pre + l + post, pre.len() as int) == Some((v, (pre.len() + l.len()) as int)),
        l.len() > 0,
        !is_space(l[0]),
        l[0] != ']' && l[0] != ')' && l[0] != '}',
{
    reveal(stands_alone);
    assert(lit_value(pre + l + post, pre.len() as int) == Some((v, (pre.len() + l.len()) as int)));
}

proof fn lemma_alone(l: Seq<char>, v: ValueView)
    requires
        stands_alone(l, v),
    ensures
        literal(l) == Some(v),
{
    let none = Seq::<char>::empty();
    assert(none + l + none =~= l);
    lemma_use(l, v, none, none);
    assert(skip_ws(l, l.len() as int) == l.len());
}

proof fn lemma_written_chars(pre: Seq<char>, t: Seq<char>, post: Seq<char>)
    ensures
        lit_string(pre + written_chars(t) + seq!['\''] + post, pre.len() as int, '\'') == Some(
            (t, (pre.len() + written_chars(t).len() + 1) as int),
        ),
    decreases t.len(),
{
    let s = pre + written_chars(t) + seq!['\''] + post;
    let p = pre.len() as int;
    if t.len() == 0 {
        assert(s[p] == '\'');
        assert(t =~= Seq::empty());
    } else {
        let w = written_char(t[0]);
        let u = t.drop_first();
        lemma_written_chars(pre + w, u, post);
        assert((pre + w) + written_chars(u) + seq!['\''] + post =~= s);
        assert(s[p] == w[0]);
        if w.len() == 2 {
            assert(s[p + 1] == w[1]);
        }
        assert(t =~= seq![t[0]] + u);
    }
}

proof fn lemma_text_alone(t: Seq<char>)
    ensures
        stands_alone(written_text(t), ValueView::Text(t)),
{
    reveal(stands_alone);
    let l = written_text(t);
    assert forall|pre: Seq<char>, post: Seq<char>|
        delimited(post) implies #[trigger] lit_value(pre + l + post, pre.len() as int) == Some(
        (ValueView::Text(t), (pre.len() + l.len()) as int),
    ) by {
        let s = pre + l + post;
        let p = pre.len() as int;
        assert(s[p] == '\'');
        assert(skip_ws(s, p) == p);
        lemma_written_chars(pre + seq!['\''], t, post);
        assert(pre + seq!['\''] + written_chars(t) + seq!['\''] + post =~= s);
    }
}

/// A bare token ends where a delimiter follows.
proof fn lemma_token(pre: Seq<char>, l: Seq<char>, post: Seq<char>, k: int)
    requires
        forall|k: int| 0 <= k < l.len() ==> !ends_atom(#[trigger] l[k]),
        delimited(post),
        0 <= k <= l.len(),
    ensures
        atom_end(pre + l + post, pre.len() + k) == pre.len() + l.len(),
    decreases l.len() - k,
{
    let s = pre + l + post;
    if k < l.len() {
        assert(s[pre.len() + k] == l[k]);
        lemma_token(pre, l, post, k + 1);
    } else if post.len() > 0 {
        assert(s[pre.len() + k] == post[0]);
    }
}

proof fn lemma_atom_alone(l: Seq<char>, v: ValueView)
    requires
        l.len() > 0,
        forall|k: int| 0 <= k < l.len() ==> !ends_atom(#[trigger] l[k]),
        l[0] != '\'' && l[0] != '"' && l[0] != '[' && l[0] != '(' && l[0] != '{',
        lit_atom(l) == Some(v),
    ensures
        stands_alone(l, v),
{
    reveal(stands_alone);
    assert(!ends_atom(l[0]));
    assert forall|pre: Seq<char>, post: Seq<char>|
        delimited(post) implies #[trigger] lit_value(pre + l + post, pre.len() as int) == Some(
        (v, (pre.len() + l.len()) as int),
    ) by {
        let s = pre + l + post;
        let p = pre.len() as int;
        assert(s[p] == l[0]);
        assert(skip_ws(s, p) == p);
        lemma_token(pre, l, post, 0);
        assert(s.subrange(p, p + l.len()) =~= l);
    }
}

proof fn lemma_word_alone(b: bool)
    ensures
        stands_alone("None"@, ValueView::Null),
        stands_alone("True"@, ValueView::Bool(true)),
        stands_alone("False"@, ValueView::Bool(false)),
{
    reveal_strlit("None");
    reveal_strlit("True");
    reveal_strlit("False");
    assert("None"@[0] == 'N' && "True"@[0] == 'T' && "False"@[0] == 'F');
    lemma_atom_alone("None"@, ValueView::Null);
    lemma_atom_alone("True"@, ValueView::Bool(true));
    lemma_atom_alone("False"@, ValueView::Bool(false));
}

proof fn lemma_int_alone(i: int)
    requires
        i64::MIN <= i <= i64::MAX,
    ensures
        stands_alone(dec(i), ValueView::Int(i)),
{
    reveal_strlit("None");
    reveal_strlit("True");
    reveal_strlit("False");
    let l = dec(i);
    let n: nat = if i < 0 {
        (-i) as nat
    } else {
        i as nat
    };
    lemma_dec_nat(n);
    law_decimal_reads_back(i);
    assert(is_digit(dec_nat(n)[0]));
    assert(unsigned_part(l) =~= dec_nat(n));
    if dec_nat(n).len() > 1 && dec_nat(n)[0] == '0' {
        assert(n == 0);
        assert(dec_nat(0).len() == 1);
    }
    assert forall|k: int| 0 <= k < l.len() implies !ends_atom(#[trigger] l[k]) by {
        if i < 0 && k > 0 {
            assert(l[k] == dec_nat(n)[k - 1]);
            assert(is_digit(dec_nat(n)[k - 1]));
        } else if i >= 0 {
            assert(is_digit(dec_nat(n)[k]));
        }
    }
    assert("None"@[0] == 'N' && "True"@[0] == 'T' && "False"@[0] == 'F');
    assert(is_digit(l[0]) || l[0] == '-');
    lemma_atom_alone(l, ValueView::Int(i));
}

// ---------------------------------------------------------------------------------------
// Lists
// ---------------------------------------------------------------------------------------

/// Literals, each of the value at its position.
pub open spec fn all_alone(ls: Seq<Seq<char>>, vs: Seq<ValueView>) -> bool {
    &&& ls.len() == vs.len()
    &&& forall|k: int| 0 <= k < ls.len() ==> stands_alone(#[trigger] ls[k], vs[k])
}

/// The last item.
proof fn lemma_last_item(s: Seq<char>, p: int, v: ValueView, q: int, close: char)
    requires
        0 <= p < q < s.len(),
        lit_value(s, p) == Some((v, q)),
        close == ']' || close == ')',
    ensures
        s[q] == close ==> lit_items(s, p, close) == Some((seq![v], q + 1)),
        s[q] == ',' && q + 1 < s.len() && s[q + 1] == close ==> lit_items(s, p, close) == Some(
            (seq![v], q + 2),
        ),
{
    if s[q] == close {
        assert(skip_ws(s, q) == q);
    }
    if s[q] == ',' && q + 1 < s.len() && s[q + 1] == close {
        assert(skip_ws(s, q) == q);
        assert(skip_ws(s, q + 1) == q + 1);
    }
}

/// An item before others.
proof fn lemma_next_item(
    s: Seq<char>,
    p: int,
    v: ValueView,
    q: int,
    close: char,
    more: Seq<ValueView>,
    e: int,
)
    requires
        0 <= p < q,
        q + 2 < s.len(),
        lit_value(s, p) == Some((v, q)),
        close == ']' || close == ')',
        s[q] == ',',
        s[q + 1] == ' ',
        !is_space(s[q + 2]),
        s[q + 2] != close,
        lit_items(s, q + 2, close) == Some((more, e)),
    ensures
        lit_items(s, p, close) == Some((seq![v] + more, e)),
{
    assert(skip_ws(s, q) == q);
    assert(skip_ws(s, q + 2) == q + 2);
    assert(skip_ws(s, q + 1) == skip_ws(s, q + 2));
}

/// An entry: its key and its value, and what is behind them.
proof fn lemma_entry(s: Seq<char>, p: int, key: Name, c: int, v: ValueView, q: int)
    requires
        0 <= p < c,
        c + 2 < q < s.len(),
        lit_value(s, p) == Some((ValueView::Text(key), c)),
        s[c] == ':',
        s[c + 1] == ' ',
        !is_space(s[c + 2]),
        lit_value(s, c + 2) == Some((v, q)),
        s[q] == '}' || s[q] == ',',
    ensures
        lit_entries(s, p) == (if s[q] == '}' {
            Some((seq![(key, v)], q + 1))
        } else {
            let n = skip_ws(s, q + 1);
            if is_at(s, n, '}') {
                Some((seq![(key, v)], n + 1))
            } else {
                match lit_entries(s, n) {
                    Some((more, end)) => Some((seq![(key, v)] + more, end)),
                    None => None,
                }
            }
        }),
{
    assert(skip_ws(s, c) == c);
    assert(skip_ws(s, c + 2) == c + 2);
    assert(skip_ws(s, c + 1) == skip_ws(s, c + 2));
    assert(lit_value(s, c + 1) == lit_value(s, c + 2));
    assert(skip_ws(s, q) == q);
    lemma_skip_ws(s, q + 1);
    assert(key_text(ValueView::Text(key)) == key);
}

#[verifier::rlimit(40)]
proof fn lemma_items(
    pre: Seq<char>,
    ls: Seq<Seq<char>>,
    vs: Seq<ValueView>,
    comma: Seq<char>,
    close: char,
    post: Seq<char>,
)
    requires
        ls.len() > 0,
        all_alone(ls, vs),
        close == ']' || close == ')',
        comma == Seq::<char>::empty() || comma == seq![','],
    ensures
        lit_items(pre + listed(ls) + comma + seq![close] + post, pre.len() as int, close) == Some(
            (vs, (pre.len() + listed(ls).len() + comma.len() + 1) as int),
        ),
    decreases ls.len(),
{
    let s = pre + listed(ls) + comma + seq![close] + post;
    let p = pre.len() as int;
    let l = ls[0];
    let q = p + l.len();
    assert(stands_alone(ls[0], vs[0]));
    if ls.len() == 1 {
        let rest = comma + seq![close] + post;
        assert(rest[0] == close || rest[0] == ',');
        assert(s =~= pre + l + rest);
        lemma_use(l, vs[0], pre, rest);
        assert(s[q] == rest[0]);
        if comma.len() > 0 {
            assert(s[q + 1] == close);
        }
        lemma_last_item(s, p, vs[0], q, close);
        assert(vs =~= seq![vs[0]]);
    } else {
        let more = ls.drop_first();
        let us = vs.drop_first();
        let rest = seq![',', ' '] + listed(more) + comma + seq![close] + post;
        assert(s =~= pre + l + rest);
        assert(rest[0] == ',');
        lemma_use(l, vs[0], pre, rest);
        assert(s[q] == ',' && s[q + 1] == ' ');
        assert forall|k: int| 0 <= k < more.len() implies stands_alone(#[trigger] more[k], us[k]) by {
            assert(stands_alone(ls[k + 1], vs[k + 1]));
        }
        lemma_items(pre + l + seq![',', ' '], more, us, comma, close, post);
        assert(pre + l + seq![',', ' '] + listed(more) + comma + seq![close] + post =~= s);
        lemma_listed_starts(more, us);
        assert(s[q + 2] == listed(more)[0]);
        lemma_next_item(
            s,
            p,
            vs[0],
            q,
            close,
            us,
            (pre.len() + listed(ls).len() + comma.len() + 1) as int,
        );
        assert(vs =~= seq![vs[0]] + us);
    }
}

proof fn lemma_listed_starts(ls: Seq<Seq<char>>, vs: Seq<ValueView>)
    requires
        ls.len() > 0,
        all_alone(ls, vs),
    ensures
        listed(ls).len() > 0,
        listed(ls)[0] == ls[0][0],
        !is_space(listed(ls)[0]),
        listed(ls)[0] != ']' && listed(ls)[0] != ')' && listed(ls)[0] != '}',
{
    assert(stands_alone(ls[0], vs[0]));
    lemma_use(ls[0], vs[0], Seq::empty(), Seq::empty());
}

/// A list or a tuple of literals stands alone, with a comma at its end or without one.
proof fn lemma_list_alone(ls: Seq<Seq<char>>, vs: Seq<ValueView>, open: char, close: char, comma: Seq<char>)
    requires
        all_alone(ls, vs),
        open == '[' && close == ']' || open == '(' && close == ')',
        comma == Seq::<char>::empty() || comma == seq![','] && ls.len() > 0,
    ensures
        stands_alone(seq![open] + listed(ls) + comma + seq![close], ValueView::List(vs)),
{
    reveal(stands_alone);
    let l = seq![open] + listed(ls) + comma + seq![close];
    assert forall|pre: Seq<char>, post: Seq<char>|
        delimited(post) implies #[trigger] lit_value(pre + l + post, pre.len() as int) == Some(
        (ValueView::List(vs), (pre.len() + l.len()) as int),
    ) by {
        let s = pre + l + post;
        let p = pre.len() as int;
        assert(s[p] == open);
        assert(skip_ws(s, p) == p);
        if ls.len() == 0 {
            assert(s[p + 1] == close);
            assert(skip_ws(s, p + 1) == p + 1);
            assert(vs =~= Seq::empty());
        } else {
            lemma_listed_starts(ls, vs);
            assert(s[p + 1] == listed(ls)[0]);
            assert(skip_ws(s, p + 1) == p + 1);
            lemma_items(pre + seq![open], ls, vs, comma, close, post);
            assert(pre + seq![open] + listed(ls) + comma + seq![close] + post =~= s);
        }
    }
}

// ---------------------------------------------------------------------------------------
// Dicts
// ---------------------------------------------------------------------------------------

/// Entries, each of the key and the value at its position.
pub open spec fn entries_alone(ls: Seq<Seq<char>>, o: VarsView, ws: Seq<Seq<char>>) -> bool {
    &&& ls.len() == o.len()
    &&& ws.len() == o.len()
    &&& forall|k: int|
        0 <= k < o.len() ==> stands_alone(#[trigger] ws[k], o[k].1) && ls[k] == written_text(o[k].0)
            + seq![':', ' '] + ws[k]
}

proof fn lemma_entry_starts(ls: Seq<Seq<char>>, o: VarsView, ws: Seq<Seq<char>>)
    requires
        ls.len() > 0,
        entries_alone(ls, o, ws),
    ensures
        listed(ls).len() > 0,
        listed(ls)[0] == '\'',
{
    assert(stands_alone(ws[0], o[0].1));
    assert(ls[0][0] == '\'');
}

#[verifier::rlimit(40)]
proof fn lemma_entries(
    pre: Seq<char>,
    ls: Seq<Seq<char>>,
    o: VarsView,
    ws: Seq<Seq<char>>,
    post: Seq<char>,
)
    requires
        ls.len() > 0,
        entries_alone(ls, o, ws),
    ensures
        lit_entries(pre + listed(ls) + seq!['}'] + post, pre.len() as int) == Some(
            (o, (pre.len() + listed(ls).len() + 1) as int),
        ),
    decreases ls.len(),
{
    let s = pre + listed(ls) + seq!['}'] + post;
    let p = pre.len() as int;
    let kt = written_text(o[0].0);
    let w = ws[0];
    assert(stands_alone(ws[0], o[0].1));
    lemma_text_alone(o[0].0);
    let more = ls.drop_first();
    let tail = if ls.len() == 1 {
        seq!['}'] + post
    } else {
        seq![',', ' '] + listed(more) + seq!['}'] + post
    };
    let c = p + kt.len();
    let q = c + 2 + w.len();
    // The key.
    let rest = seq![':', ' '] + w + tail;
    assert(s =~= pre + kt + rest);
    assert(rest[0] == ':');
    lemma_use(kt, ValueView::Text(o[0].0), pre, rest);
    assert(s[c] == ':' && s[c + 1] == ' ');
    // The value.
    let front = pre + kt + seq![':', ' '];
    assert(s =~= front + w + tail);
    assert(tail[0] == '}' || tail[0] == ',');
    lemma_use(w, o[0].1, front, tail);
    assert(s[c + 2] == w[0]);
    assert(s[q] == tail[0]);
    lemma_entry(s, p, o[0].0, c, o[0].1, q);
    if ls.len() == 1 {
        assert(o =~= seq![(o[0].0, o[0].1)]);
    } else {
        let u = o.drop_first();
        let xs = ws.drop_first();
        assert(s[q + 1] == ' ');
        assert forall|k: int| 0 <= k < u.len() implies stands_alone(#[trigger] xs[k], u[k].1)
            && more[k] == written_text(u[k].0) + seq![':', ' '] + xs[k] by {
            assert(stands_alone(ws[k + 1], o[k + 1].1));
        }
        lemma_entries(front + w + seq![',', ' '], more, u, xs, post);
        assert(front + w + seq![',', ' '] + listed(more) + seq!['}'] + post =~= s);
        lemma_entry_starts(more, u, xs);
        assert(s[q + 2] == listed(more)[0]);
        assert(skip_ws(s, q + 2) == q + 2);
        assert(skip_ws(s, q + 1) == skip_ws(s, q + 2));
        assert(o =~= seq![(o[0].0, o[0].1)] + u);
    }
}

/// Entries with different keys, put one after the other, are those entries.
proof fn lemma_overlay_distinct(o: VarsView)
    requires
        distinct(o),
    ensures
        overlay(Seq::empty(), o) == o,
    decreases o.len(),
{
    if o.len() > 0 {
        let u = o.drop_last();
        assert(distinct(u)) by {
            assert forall|a: int, b: int| 0 <= a < b < u.len() implies (#[trigger] u[a]).0 != (
            #[trigger] u[b]).0 by {
                assert(o[a].0 != o[b].0);
            }
        }
        lemma_overlay_distinct(u);
        lemma_pos(u, o.last().0);
        assert(!holds(u, o.last().0)) by {
            if holds(u, o.last().0) {
                let p = pos(u, o.last().0);
                assert(o[p].0 != o[o.len() - 1].0);
                assert(u[p] == o[p]);
            }
        }
        assert(o =~= u.push(o.last()));
    }
}

proof fn lemma_dict_alone(ls: Seq<Seq<char>>, o: VarsView, ws: Seq<Seq<char>>)
    requires
        entries_alone(ls, o, ws),
        distinct(o),
    ensures
        stands_alone(seq!['{'] + listed(ls) + seq!['}'], ValueView::Dict(o)),
{
    reveal(stands_alone);
    let l = seq!['{'] + listed(ls) + seq!['}'];
    lemma_overlay_distinct(o);
    assert forall|pre: Seq<char>, post: Seq<char>|
        delimited(post) implies #[trigger] lit_value(pre + l + post, pre.len() as int) == Some(
        (ValueView::Dict(o), (pre.len() + l.len()) as int),
    ) by {
        let s = pre + l + post;
        let p = pre.len() as int;
        assert(s[p] == '{');
        assert(skip_ws(s, p) == p);
        if ls.len() == 0 {
            assert(s[p + 1] == '}');
            assert(skip_ws(s, p + 1) == p + 1);
            assert(o =~= Seq::empty());
        } else {
            lemma_entry_starts(ls, o, ws);
            assert(s[p + 1] == '\'');
            assert(skip_ws(s, p + 1) == p + 1);
            lemma_entries(pre + seq!['{'], ls, o, ws, post);
            assert(pre + seq!['{'] + listed(ls) + seq!['}'] + post =~= s);
        }
    }
}

proof fn lemma_written_alone(v: ValueView)
    requires
        writable(v),
    ensures
        stands_alone(written(v), v),
    decreases v,
{
    match v {
        ValueView::Null => lemma_word_alone(true),
        ValueView::Bool(b) => lemma_word_alone(b),
        ValueView::Int(i) => lemma_int_alone(i),
        ValueView::Float(_) => {},
        ValueView::Text(t) => lemma_text_alone(t),
        ValueView::List(a) => {
            let ls = written_items(a, a.len());
            lemma_written_items(a, a.len());
            assert forall|k: int| 0 <= k < ls.len() implies stands_alone(#[trigger] ls[k], a[k]) by {
                assert(writable(a[k]));
                lemma_written_alone(a[k]);
            }
            let none = Seq::<char>::empty();
            lemma_list_alone(ls, a, '[', ']', none);
            assert(seq!['['] + listed(ls) + none + seq![']'] =~= seq!['['] + listed(ls) + seq![']']);
        },
        ValueView::Dict(o) => {
            let ls = written_entries(o, o.len());
            let ws = Seq::new(o.len(), |k: int| written(o[k].1));
            lemma_written_entries(o, o.len());
            assert forall|k: int| 0 <= k < o.len() implies stands_alone(#[trigger] ws[k], o[k].1)
                && ls[k] == written_text(o[k].0) + seq![':', ' '] + ws[k] by {
                assert(writable(o[k].1));
                lemma_written_alone(o[k].1);
            }
            lemma_dict_alone(ls, o, ws);
        },
    }
}

// ---------------------------------------------------------------------------------------
// Laws
// ---------------------------------------------------------------------------------------

/// What a value is written as is the literal of that value, whatever is nested in it: the
/// words, the integers, the texts with whatever characters they hold, lists with every item
/// in its place, and dicts with every entry.
pub proof fn law_literals_read_back(v: ValueView)
    requires
        writable(v),
    ensures
        literal(written(v)) == Some(v),
{
    lemma_written_alone(v);
    lemma_alone(written(v), v);
}

/// A list of written values is the literal of the list of those values, one for each and in
/// order; so is a tuple, and a comma may stand behind the last item.
pub proof fn law_lists_read_back(vs: Seq<ValueView>, comma: bool)
    requires
        forall|k: int| 0 <= k < vs.len() ==> writable(#[trigger] vs[k]),
        comma ==> vs.len() > 0,
    ensures
        ({
            let items = listed(Seq::new(vs.len(), |k: int| written(vs[k]))) + (if comma {
                seq![',']
            } else {
                Seq::empty()
            });
            &&& literal(seq!['['] + items + seq![']']) == Some(ValueView::List(vs))
            &&& literal(seq!['('] + items + seq![')']) == Some(ValueView::List(vs))
        }),
{
    let ls = Seq::new(vs.len(), |k: int| written(vs[k]));
    let c = if comma {
        seq![',']
    } else {
        Seq::empty()
    };
    let items = listed(ls) + c;
    assert forall|k: int| 0 <= k < ls.len() implies stands_alone(#[trigger] ls[k], vs[k]) by {
        lemma_written_alone(vs[k]);
    }
    lemma_list_alone(ls, vs, '[', ']', c);
    lemma_list_alone(ls, vs, '(', ')', c);
    lemma_alone(seq!['['] + listed(ls) + c + seq![']'], ValueView::List(vs));
    lemma_alone(seq!['('] + listed(ls) + c + seq![')'], ValueView::List(vs));
    assert(seq!['['] + listed(ls) + c + seq![']'] =~= seq!['['] + items + seq![']']);
    assert(seq!['('] + listed(ls) + c + seq![')'] =~= seq!['('] + items + seq![')']);
}

/// White space around a literal does not matter.
pub proof fn law_white_space_around(v: ValueView, a: Seq<char>, b: Seq<char>)
    requires
        writable(v),
        forall|k: int| 0 <= k < a.len() ==> is_space(#[trigger] a[k]),
        forall|k: int| 0 <= k < b.len() ==> is_space(#[trigger] b[k]),
    ensures
        literal(a + written(v) + b) == Some(v),
{
    let l = written(v);
    let s = a + l + b;
    lemma_written_alone(v);
    assert(delimited(b)) by {
        if b.len() > 0 {
            assert(is_space(b[0]));
        }
    }
    lemma_use(l, v, a, b);
    lemma_spaces(s, 0, a.len() as int);
    assert(s[a.len() as int] == l[0]);
    assert(skip_ws(s, a.len() as int) == a.len());
    assert(lit_value(s, 0) == lit_value(s, a.len() as int));
    lemma_spaces(s, (a.len() + l.len()) as int, s.len() as int);
}

proof fn lemma_spaces(s: Seq<char>, p: int, q: int)
    requires
        0 <= p <= q <= s.len(),
        forall|k: int| p <= k < q ==> is_space(#[trigger] s[k]),
    ensures
        skip_ws(s, p) == skip_ws(s, q),
    decreases q - p,
{
    if p < q {
        assert(is_space(s[p]));
        lemma_spaces(s, p + 1, q);
    }
}

/// A text that goes on behind a literal is no literal.
pub proof fn law_nothing_behind(v: ValueView, post: Seq<char>)
    requires
        writable(v),
        post.len() > 0,
        ends_atom(post[0]),
        !is_space(post[0]),
    ensures
        literal(written(v) + post) is None,
{
    let l = written(v);
    let none = Seq::<char>::empty();
    let s = l + post;
    lemma_written_alone(v);
    assert(none + l + post =~= s);
    lemma_use(l, v, none, post);
    assert(s[l.len() as int] == post[0]);
    assert(skip_ws(s, l.len() as int) == l.len());
}

// ---------------------------------------------------------------------------------------
// Signs, floats, keys and double quotes
// ---------------------------------------------------------------------------------------

/// An integer may have a plus sign.
pub proof fn law_plus_signs(i: i64)
    requires
        i >= 0,
    ensures
        literal(seq!['+'] + dec(i as int)) == Some(ValueView::Int(i as int)),
{
    reveal_strlit("None");
    reveal_strlit("True");
    reveal_strlit("False");
    let n = i as nat;
    let l = seq!['+'] + dec(i as int);
    lemma_dec_nat(n);
    law_decimal_reads_back(i as int);
    assert(is_digit(dec_nat(n)[0]));
    assert(unsigned_part(l) =~= dec_nat(n));
    assert(l.drop_first() =~= dec_nat(n));
    if dec_nat(n).len() > 1 && dec_nat(n)[0] == '0' {
        assert(n == 0);
        assert(dec_nat(0).len() == 1);
    }
    assert forall|k: int| 0 <= k < l.len() implies !ends_atom(#[trigger] l[k]) by {
        if k > 0 {
            assert(l[k] == dec_nat(n)[k - 1]);
            assert(is_digit(dec_nat(n)[k - 1]));
        }
    }
    assert("None"@[0] == 'N' && "True"@[0] == 'T' && "False"@[0] == 'F');
    assert(parse_i64_spec(l) == Some(i));
    lemma_atom_alone(l, ValueView::Int(i as int));
    lemma_alone(l, ValueView::Int(i as int));
}

/// A token with a point or an exponent is the float that it is read as; one that is read as
/// no float, or as one that is not finite, is no literal.
pub proof fn law_float_literals(t: Seq<char>)
    requires
        t.len() > 0,
        is_digit(t[0]) || t[0] == '-' || t[0] == '+' || t[0] == '.',
        forall|k: int| 0 <= k < t.len() ==> !ends_atom(#[trigger] t[k]),
        unsigned_part(t).contains('.') || unsigned_part(t).contains('e') || unsigned_part(
            t,
        ).contains('E'),
    ensures
        literal(t) == (match float_text(t) {
            Some(Some(f)) => Some(ValueView::Float(f)),
            _ => None,
        }),
{
    reveal_strlit("None");
    reveal_strlit("True");
    reveal_strlit("False");
    assert("None"@[0] == 'N' && "True"@[0] == 'T' && "False"@[0] == 'F');
    let b = unsigned_part(t);
    assert(!all_digits(b)) by {
        let c = if b.contains('.') {
            '.'
        } else if b.contains('e') {
            'e'
        } else {
            'E'
        };
        let k = choose|k: int| 0 <= k < b.len() && b[k] == c;
        assert(!is_digit(b[k]));
    }
    match float_text(t) {
        Some(Some(f)) => {
            lemma_atom_alone(t, ValueView::Float(f));
            lemma_alone(t, ValueView::Float(f));
        },
        _ => {
            let none = Seq::<char>::empty();
            assert(none + t + none =~= t);
            assert(!ends_atom(t[0]));
            assert(skip_ws(t, 0) == 0);
            lemma_token(none, t, none, 0);
            assert(t.subrange(0, t.len() as int) =~= t);
            assert(lit_atom(t) is None);
        },
    }
}

/// A key of a dict that is an integer, a boolean or none is the text that it is written as.
pub proof fn law_keys_are_texts(k: ValueView, v: ValueView)
    requires
        writable(v),
        k is Int || k is Bool || k is Null,
        writable(k),
    ensures
        literal(seq!['{'] + written(k) + seq![':', ' '] + written(v) + seq!['}']) == Some(
            ValueView::Dict(seq![(written(k), v)]),
        ),
{
    let (a, b) = (written(k), written(v));
    let s = seq!['{'] + a + seq![':', ' '] + b + seq!['}'];
    lemma_written_alone(k);
    lemma_written_alone(v);
    let c = 1 + a.len() as int;
    let q = c + 2 + b.len();
    let end = seq![':', ' '] + b + seq!['}'];
    assert(s =~= seq!['{'] + a + end);
    assert(end[0] == ':');
    lemma_use(a, k, seq!['{'], end);
    let front = seq!['{'] + a + seq![':', ' '];
    assert(s =~= front + b + seq!['}']);
    lemma_use(b, v, front, seq!['}']);
    assert(s[0] == '{' && s[1] == a[0] && s[c] == ':' && s[c + 1] == ' ' && s[c + 2] == b[0]
        && s[q] == '}');
    assert(key_text(k) == a);
    assert(skip_ws(s, 0) == 0);
    assert(skip_ws(s, 1) == 1);
    assert(skip_ws(s, c) == c);
    assert(skip_ws(s, c + 2) == c + 2);
    assert(skip_ws(s, c + 1) == skip_ws(s, c + 2));
    assert(lit_value(s, c + 1) == lit_value(s, c + 2));
    assert(skip_ws(s, q) == q);
    assert(skip_ws(s, q + 1) == q + 1);
    let e = (a, v);
    assert(lit_entries(s, 1) == Some((seq![e], q + 1)));
    lemma_overlay_distinct(seq![e]);
    assert(lit_value(s, 0) == Some((ValueView::Dict(seq![e]), q + 1)));
}

/// What a backslash and a character stand for between quotes: `n`, `t` and `r` for a line
/// feed, a tab and a carriage return, and any other for itself.
pub open spec fn escape_of(c: char) -> char {
    if c == 'n' {
        '\n'
    } else if c == 't' {
        '\t'
    } else if c == 'r' {
        '\r'
    } else {
        c
    }
}

proof fn lemma_quoted_run(s: Seq<char>, p: int, w: Seq<char>, quote: char, k: int)
    requires
        !w.contains(quote),
        !w.contains('\\'),
        0 <= p,
        p + w.len() <= s.len(),
        0 <= k <= w.len(),
        forall|j: int| 0 <= j < w.len() ==> s[p + j] == w[j],
    ensures
        lit_string(s, p + k, quote) == (match lit_string(s, p + w.len(), quote) {
            Some((t, q)) => Some((w.skip(k) + t, q)),
            None => None,
        }),
    decreases w.len() - k,
{
    if k < w.len() {
        assert(s[p + k] == w[k]);
        assert(w.contains(w[k]));
        lemma_quoted_run(s, p, w, quote, k + 1);
        if let Some((t, q)) = lit_string(s, p + w.len(), quote) {
            assert(seq![w[k]] + (w.skip(k + 1) + t) =~= w.skip(k) + t);
        }
    } else if let Some((t, q)) = lit_string(s, p + w.len(), quote) {
        assert(w.skip(k) + t =~= t);
    }
}

/// Between quotes of either kind a backslash and a character stand for one character.
pub proof fn law_escapes(a: Seq<char>, c: char, b: Seq<char>, quote: char)
    requires
        quote == '\'' || quote == '"',
        !a.contains(quote),
        !a.contains('\\'),
        !b.contains(quote),
        !b.contains('\\'),
    ensures
        literal(seq![quote] + a + seq!['\\', c] + b + seq![quote]) == Some(
            ValueView::Text(a + seq![escape_of(c)] + b),
        ),
{
    let s = seq![quote] + a + seq!['\\', c] + b + seq![quote];
    let n = a.len() as int;
    let m = b.len() as int;
    let none = Seq::<char>::empty();
    let t = a + seq![escape_of(c)] + b;
    assert(s[0] == quote && s[1 + n] == '\\' && s[2 + n] == c && s[3 + n + m] == quote);
    assert forall|j: int| 0 <= j < n implies s[1 + j] == a[j] by {}
    assert forall|j: int| 0 <= j < m implies s[3 + n + j] == b[j] by {}
    lemma_quoted_run(s, 1, a, quote, 0);
    lemma_quoted_run(s, 3 + n, b, quote, 0);
    assert(lit_string(s, 3 + n + m, quote) == Some((none, 4 + n + m)));
    assert(b.skip(0) + none =~= b);
    assert(lit_string(s, 3 + n, quote) == Some((b, 4 + n + m)));
    assert(lit_string(s, 1 + n, quote) == Some((seq![escape_of(c)] + b, 4 + n + m)));
    assert(a.skip(0) + (seq![escape_of(c)] + b) =~= t);
    assert(lit_string(s, 1, quote) == Some((t, 4 + n + m)));
    assert(skip_ws(s, 0) == 0);
    assert(skip_ws(s, s.len() as int) == s.len());
}

} // verus!
