//! Host patterns: a trailing `:port`, and `[begin:end:step]` ranges.

use vstd::prelude::*;
use crate::assoc::Name;
use crate::error::{outcome, Error, ErrorView};
use crate::text::{all_digits, byte_len, chars_of, dec, dec_i64, dec_nat, digits_from, digits_value, find_char, find_from, is_digit, is_letter, lemma_dec_nat, lemma_find_char, lemma_names_push, letter, names, parse_i64, parse_i64_spec, read_digits, split, split_text, text_of, text_of_char, text_span, utf8_len, zero_fill, zero_filled};

verus! {

// ---------------------------------------------------------------------------------------
// Ports
// ---------------------------------------------------------------------------------------

/// How many brackets are open at the end of `s`.
pub open spec fn open_brackets(s: Seq<char>) -> int
    decreases s.len(),
{
    if s.len() == 0 {
        0
    } else {
        let d = open_brackets(s.drop_last());
        if s.last() == '[' {
            d + 1
        } else if s.last() == ']' {
            d - 1
        } else {
            d
        }
    }
}

/// The last colon outside of brackets.
pub open spec fn last_colon(s: Seq<char>) -> Option<int>
    decreases s.len(),
{
    if s.len() == 0 {
        None
    } else if s.last() == ':' && open_brackets(s.drop_last()) == 0 {
        Some(s.len() - 1)
    } else {
        last_colon(s.drop_last())
    }
}

/// A pattern without its port, and the port: the digits behind the last colon outside of
/// brackets, where they write a `u32`.
pub open spec fn port_split(s: Seq<char>) -> (Seq<char>, Option<u32>) {
    match last_colon(s) {
        Some(i) => {
            let tail = s.skip(i + 1);
            if tail.len() > 0 && all_digits(tail) && digits_value(tail) <= u32::MAX {
                (s.take(i), Some(digits_value(tail) as u32))
            } else {
                (s, None)
            }
        },
        None => (s, None),
    }
}

/// Splits an optional trailing `:port` off a host pattern.
pub fn split_port(pattern: &str) -> (r: (String, Option<u32>))
    ensures
        (r.0@, r.1) == port_split(pattern@),
{
    let cs = chars_of(pattern);
    let mut depth: i128 = 0;
    let mut last: Option<usize> = None;
    let mut i: usize = 0;
    while i < cs.len()
        invariant
            i <= cs.len(),
            depth == open_brackets(cs@.take(i as int)),
            -(i as int) <= depth <= i,
            match last {
                Some(k) => last_colon(cs@.take(i as int)) == Some(k as int) && k < i,
                None => last_colon(cs@.take(i as int)) is None,
            },
        decreases cs.len() - i,
    {
        let c = cs[i];
        assert(cs@.take(i + 1).drop_last() =~= cs@.take(i as int));
        if c == ':' && depth == 0 {
            last = Some(i);
        }
        if c == '[' {
            depth = depth + 1;
        } else if c == ']' {
            depth = depth - 1;
        }
        i += 1;
    }
    assert(cs@.take(i as int) =~= cs@);
    match last {
        Some(k) => {
            if k + 1 < cs.len() && digits_from(&cs, k + 1) {
                match read_digits(&cs, k + 1) {
                    Some(v) => if v <= 0xffff_ffff {
                        assert(cs@.subrange(0, k as int) =~= cs@.take(k as int));
                        return (text_span(&cs, 0, k), Some(v as u32));
                    },
                    None => {},
                }
            }
            (pattern.to_owned(), None)
        },
        None => (pattern.to_owned(), None),
    }
}

// ---------------------------------------------------------------------------------------
// Ranges
// ---------------------------------------------------------------------------------------

/// An error of a host range.
pub open spec fn range_fault(msg: Seq<char>) -> ErrorView {
    ErrorView::Parse { path: "<host range>"@, msg }
}

/// `s` with its first `c` replaced by `|`.
pub open spec fn bar_first(s: Seq<char>, c: char) -> Seq<char> {
    if find_char(s, c) < s.len() {
        s.update(find_char(s, c), '|')
    } else {
        s
    }
}

/// `s` cut at its first two bars.
pub open spec fn cut_in_three(s: Seq<char>) -> Option<(Seq<char>, Seq<char>, Seq<char>)> {
    let i = find_char(s, '|');
    if i < s.len() {
        let rest = s.skip(i + 1);
        let j = find_char(rest, '|');
        if j < rest.len() {
            Some((s.take(i), rest.take(j), rest.skip(j + 1)))
        } else {
            None
        }
    } else {
        None
    }
}

/// What stands before, in, and behind the first range of a line.
pub open spec fn range_parts(line: Seq<char>) -> Option<(Seq<char>, Seq<char>, Seq<char>)> {
    cut_in_three(bar_first(bar_first(line, '['), ']'))
}

/// The position of a letter in `a..z`, `A..Z`.
pub open spec fn letter_index(c: char) -> int {
    if 'a' <= c <= 'z' {
        c as int - 'a' as int
    } else {
        26 + c as int - 'A' as int
    }
}

/// The letter at a position of `a..z`, `A..Z`.
pub open spec fn letter_at(i: int) -> char {
    if i < 26 {
        (i + 97) as u8 as char
    } else {
        (i - 26 + 65) as u8 as char
    }
}

/// How many steps there are from `b` on without passing `e`. A negative step leads away from
/// the end: there are none.
pub open spec fn step_count(b: int, e: int, step: int) -> int {
    if b <= e && step > 0 {
        (e - b) / step + 1
    } else {
        0
    }
}

/// The letters from `a` to `b` in steps.
pub open spec fn letter_tokens(a: int, b: int, step: int) -> Seq<Name> {
    Seq::new(step_count(a, b, step) as nat, |k: int| seq![letter_at(a + k * step)])
}

/// The numbers from `b` to `e` in steps, filled up with zeros to the width where there is
/// one.
pub open spec fn number_tokens(b: int, e: int, step: int, width: Option<nat>) -> Seq<Name> {
    Seq::new(
        step_count(b, e, step) as nat,
        |k: int|
            match width {
                Some(w) => zero_filled(dec(b + k * step), w),
                None => dec(b + k * step),
            },
    )
}

/// The items of a range `begin:end` or `begin:end:step`.
pub open spec fn range_tokens(r: Seq<char>) -> Result<Seq<Name>, ErrorView> {
    let bounds = split(r, ':');
    let beg = if bounds[0].len() == 0 {
        seq!['0']
    } else {
        bounds[0]
    };
    let end = bounds[1];
    let step = if bounds.len() == 3 {
        parse_i64_spec(bounds[2])
    } else {
        Some(1i64)
    };
    let padded = beg[0] == '0' && beg.len() > 1;
    if bounds.len() != 2 && bounds.len() != 3 {
        Err(range_fault("host range must be begin:end or begin:end:step"@))
    } else if end.len() == 0 {
        Err(range_fault("host range must specify end value"@))
    } else if step is None {
        Err(range_fault("invalid step in host range"@))
    } else if step == Some(0i64) {
        Err(range_fault("host range step cannot be zero"@))
    } else if padded && utf8_len(beg) != utf8_len(end) {
        Err(range_fault("host range must specify equal-length begin and end formats"@))
    } else if beg.len() == 1 && end.len() == 1 && is_letter(beg[0]) && is_letter(end[0]) {
        if letter_index(beg[0]) > letter_index(end[0]) {
            Err(range_fault("host range must have begin <= end"@))
        } else {
            Ok(letter_tokens(letter_index(beg[0]), letter_index(end[0]), step.unwrap() as int))
        }
    } else {
        match (parse_i64_spec(beg), parse_i64_spec(end)) {
            (None, _) => Err(range_fault("invalid begin in host range"@)),
            (_, None) => Err(range_fault("invalid end in host range"@)),
            (Some(b), Some(e)) => Ok(
                number_tokens(
                    b as int,
                    e as int,
                    step.unwrap() as int,
                    if padded {
                        Some(beg.len())
                    } else {
                        None
                    },
                ),
            ),
        }
    }
}

/// The number of opening brackets.
pub open spec fn bracket_count(s: Seq<char>) -> nat
    decreases s.len(),
{
    if s.len() == 0 {
        0
    } else {
        bracket_count(s.drop_last()) + (if s.last() == '[' {
            1nat
        } else {
            0nat
        })
    }
}

/// The host names of a line with a range: one for each item of its first range, with the
/// ranges behind it expanded in turn.
pub open spec fn expanded(line: Seq<char>) -> Result<Seq<Name>, ErrorView>
    decreases bracket_count(line), 1nat, 0nat,
{
    match range_parts(line) {
        None => Err(range_fault("host range is malformed"@)),
        Some((head, range, tail)) => match range_tokens(range) {
            Err(e) => Err(e),
            Ok(ts) => expanded_items(line, head, ts, tail),
        },
    }
}

/// The host names for some items of the first range of `line`, in order; the first error
/// stands.
pub open spec fn expanded_items(
    line: Seq<char>,
    head: Seq<char>,
    ts: Seq<Name>,
    tail: Seq<char>,
) -> Result<Seq<Name>, ErrorView>
    decreases bracket_count(line), 0nat, ts.len(),
    when forall|k: int|
        0 <= k < ts.len() ==> bracket_count(head + #[trigger] ts[k] + tail) < bracket_count(line)
            || !(head + ts[k] + tail).contains('[')
{
    if ts.len() == 0 {
        Ok(Seq::empty())
    } else {
        match expanded_items(line, head, ts.drop_last(), tail) {
            Err(e) => Err(e),
            Ok(before) => {
                let name = head + ts[ts.len() - 1] + tail;
                if name.contains('[') {
                    match expanded(name) {
                        Err(e) => Err(e),
                        Ok(more) => Ok(before + more),
                    }
                } else {
                    Ok(before.push(name))
                }
            },
        }
    }
}

/// What a host pattern stands for: host names, and the port they share.
pub open spec fn expanded_pattern(pattern: Seq<char>) -> Result<
    (Seq<Name>, Option<u32>),
    ErrorView,
> {
    let (p, port) = port_split(pattern);
    if p.contains('[') {
        match expanded(p) {
            Err(e) => Err(e),
            Ok(hosts) => Ok((hosts, port)),
        }
    } else {
        Ok((seq![p], port))
    }
}

proof fn lemma_bracket_add(a: Seq<char>, b: Seq<char>)
    ensures
        bracket_count(a + b) == bracket_count(a) + bracket_count(b),
    decreases b.len(),
{
    if b.len() == 0 {
        assert(a + b =~= a);
    } else {
        lemma_bracket_add(a, b.drop_last());
        assert((a + b).drop_last() =~= a + b.drop_last());
    }
}

proof fn lemma_bracket_none(s: Seq<char>)
    ensures
        bracket_count(s) == 0 <==> !s.contains('['),
    decreases s.len(),
{
    if s.len() > 0 {
        lemma_bracket_none(s.drop_last());
        if s.contains('[') {
            let i = choose|i: int| 0 <= i < s.len() && s[i] == '[';
            if i < s.len() - 1 {
                assert(s.drop_last()[i] == '[');
            }
        }
        if s.drop_last().contains('[') {
            let i = choose|i: int| 0 <= i < s.len() - 1 && s.drop_last()[i] == '[';
            assert(s[i] == '[');
        }
        if s.last() == '[' {
            assert(s[s.len() - 1] == '[');
        }
    }
}

proof fn lemma_bracket_update(s: Seq<char>, i: int)
    requires
        0 <= i < s.len(),
    ensures
        bracket_count(s.update(i, '|')) + (if s[i] == '[' {
            1nat
        } else {
            0nat
        }) == bracket_count(s),
{
    let a = s.take(i);
    let b = s.skip(i + 1);
    assert(s =~= a + seq![s[i]] + b);
    assert(s.update(i, '|') =~= a + seq!['|'] + b);
    lemma_bracket_add(a + seq![s[i]], b);
    lemma_bracket_add(a, seq![s[i]]);
    lemma_bracket_add(a + seq!['|'], b);
    lemma_bracket_add(a, seq!['|']);
    reveal_with_fuel(bracket_count, 2);
}

/// Putting an item without brackets in the place of the first range leaves fewer brackets,
/// or none.
pub(crate) proof fn lemma_fewer_brackets(line: Seq<char>, token: Seq<char>)
    requires
        range_parts(line) is Some,
        !token.contains('['),
    ensures
        ({
            let (h, r, t) = range_parts(line).unwrap();
            bracket_count(h + token + t) < bracket_count(line) || !(h + token + t).contains('[')
        }),
{
    let a = bar_first(line, '[');
    let b = bar_first(a, ']');
    let (h, r, t) = range_parts(line).unwrap();
    lemma_find_char(line, '[');
    lemma_find_char(a, ']');
    lemma_find_char(b, '|');
    let i = find_char(b, '|');
    let rest = b.skip(i + 1);
    lemma_find_char(rest, '|');
    let j = find_char(rest, '|');
    assert(b =~= h + seq!['|'] + r + seq!['|'] + t);
    lemma_bracket_add(h + seq!['|'] + r + seq!['|'], t);
    lemma_bracket_add(h + seq!['|'] + r, seq!['|']);
    lemma_bracket_add(h + seq!['|'], r);
    lemma_bracket_add(h, seq!['|']);
    lemma_bracket_add(h + token, t);
    lemma_bracket_add(h, token);
    lemma_bracket_none(token);
    lemma_bracket_none(line);
    lemma_bracket_none(h + token + t);
    if find_char(line, '[') < line.len() {
        lemma_bracket_update(line, find_char(line, '['));
    }
    if find_char(a, ']') < a.len() {
        lemma_bracket_update(a, find_char(a, ']'));
    }
}

/// Counting from `b` in steps of `step`: the `k`-th number is at most `e` for the counted
/// `k`, and for no other.
pub(crate) proof fn lemma_counting(b: int, e: int, step: int, k: int)
    requires
        b <= e,
        step > 0,
        0 <= k,
    ensures
        (b + k * step <= e) <==> k < step_count(b, e, step),
        step_count(b, e, step) >= 1,
        step_count(b, e, step) * step <= (e - b) + step,
{
    let d = e - b;
    let q = d / step;
    assert(d == q * step + d % step && 0 <= d % step < step) by (nonlinear_arith)
        requires
            step > 0,
            d >= 0,
            q == d / step,
    ;
    assert(q >= 0) by (nonlinear_arith)
        requires
            d == q * step + d % step,
            0 <= d % step < step,
            d >= 0,
            step > 0,
    ;
    assert((q + 1) * step == q * step + step) by (nonlinear_arith);
    if k <= q {
        assert(k * step <= q * step) by (nonlinear_arith)
            requires
                k <= q,
                step > 0,
        ;
    } else {
        assert(k * step >= (q + 1) * step) by (nonlinear_arith)
            requires
                k >= q + 1,
                step > 0,
        ;
    }
}

/// No item of a range holds a bracket.
pub(crate) proof fn lemma_tokens_plain(r: Seq<char>)
    requires
        range_tokens(r) is Ok,
    ensures
        forall|k: int|
            0 <= k < range_tokens(r)->Ok_0.len() ==> !(
            #[trigger] range_tokens(r)->Ok_0[k]).contains('['),
{
    let ts = range_tokens(r)->Ok_0;
    assert forall|k: int| 0 <= k < ts.len() implies !(#[trigger] ts[k]).contains('[') by {
        let bounds = split(r, ':');
        let beg = if bounds[0].len() == 0 {
            seq!['0']
        } else {
            bounds[0]
        };
        let end = bounds[1];
        let step = if bounds.len() == 3 {
            parse_i64_spec(bounds[2]).unwrap()
        } else {
            1i64
        };
        let t = ts[k];
        if beg.len() == 1 && end.len() == 1 && is_letter(beg[0]) && is_letter(end[0]) {
            let a = letter_index(beg[0]);
            let b = letter_index(end[0]);
            lemma_counting(a, b, step as int, k);
            assert(k * step >= 0) by (nonlinear_arith)
                requires
                    k >= 0,
                    step > 0,
            ;
            assert(t == seq![letter_at(a + k * step)]);
            assert(0 <= a + k * step <= 51);
            assert(is_letter(letter_at(a + k * step)));
        } else {
            let i = parse_i64_spec(beg).unwrap() + k * step;
            lemma_dec_nat(i as nat);
            lemma_dec_nat((-i) as nat);
            let d = dec(i);
            assert forall|m: int| 0 <= m < d.len() implies d[m] != '[' by {
                if i < 0 {
                    if m > 0 {
                        assert(d[m] == dec_nat((-i) as nat)[m - 1]);
                        assert(is_digit(dec_nat((-i) as nat)[m - 1]));
                    }
                } else {
                    assert(is_digit(dec_nat(i as nat)[m]));
                }
            }
            let w = if beg[0] == '0' && beg.len() > 1 {
                beg.len()
            } else {
                0
            };
            assert(t == zero_filled(d, w));
        }
    }
}

/// An error of a host range.
fn range_err(msg: &str) -> (r: Error)
    ensures
        r@ == range_fault(msg@),
{
    Error::Parse { path: "<host range>".to_owned(), msg: msg.to_owned() }
}

/// The position of a letter in `a..z`, `A..Z`.
fn index_of_letter(c: char) -> (r: i128)
    requires
        is_letter(c),
    ensures
        r == letter_index(c),
        0 <= r <= 51,
{
    if 'a' <= c && c <= 'z' {
        c as u32 as i128 - 97
    } else {
        26 + c as u32 as i128 - 65
    }
}

/// The letters of a range.
fn letter_items(a: i128, b: i128, step: i64) -> (r: Vec<String>)
    requires
        0 <= a <= b <= 51,
        step != 0,
    ensures
        names(r@) == letter_tokens(a as int, b as int, step as int),
{
    let ghost ts = letter_tokens(a as int, b as int, step as int);
    let mut out: Vec<String> = Vec::new();
    let mut i: i128 = a;
    proof {
        assert(names(out@) =~= ts.take(0));
        if step > 0 {
            lemma_counting(a as int, b as int, step as int, 0);
        }
        assert(a + 0 * step == a) by (nonlinear_arith);
    }
    if step < 0 {
        assert(names(out@) =~= ts);
        return out;
    }
    while i <= b
        invariant
            0 <= a <= i,
            b <= 51,
            a <= b,
            step > 0,
            i == a + out@.len() * step,
            ts == letter_tokens(a as int, b as int, step as int),
            out@.len() <= ts.len(),
            names(out@) == ts.take(out@.len() as int),
        decreases ts.len() - out@.len(),
    {
        let c = if i < 26 {
            (i as u8 + 97) as char
        } else {
            (i as u8 - 26 + 65) as char
        };
        let ghost k = out@.len() as int;
        proof {
            lemma_counting(a as int, b as int, step as int, k);
            assert(ts[k] == seq![letter_at(a + k * step)]);
        }
        let t = text_of_char(c);
        proof {
            lemma_names_push(out@, t);
            assert(ts.take(k).push(t@) =~= ts.take(k + 1));
            assert((k + 1) * step == k * step + step) by (nonlinear_arith);
        }
        out.push(t);
        i = i + step as i128;
    }
    proof {
        lemma_counting(a as int, b as int, step as int, out@.len() as int);
        assert(names(out@) =~= ts);
    }
    out
}

/// The numbers of a range.
fn number_items(b: i64, e: i64, step: i64, width: Option<usize>) -> (r: Vec<String>)
    requires
        step != 0,
    ensures
        names(r@) == number_tokens(
            b as int,
            e as int,
            step as int,
            match width {
                Some(w) => Some(w as nat),
                None => None,
            },
        ),
{
    let ghost w = match width {
        Some(w) => Some(w as nat),
        None => None,
    };
    let ghost ts = number_tokens(b as int, e as int, step as int, w);
    let mut out: Vec<String> = Vec::new();
    let mut i: i128 = b as i128;
    proof {
        assert(names(out@) =~= ts.take(0));
        assert(b + 0 * step == b) by (nonlinear_arith);
    }
    if step < 0 {
        assert(names(out@) =~= ts);
        return out;
    }
    while i <= e as i128
        invariant
            b <= i,
            step > 0,
            i == b + out@.len() * step,
            i <= i64::MAX + 0x1_0000_0000_0000_0000,
            w == (match width {
                Some(w) => Some(w as nat),
                None => None,
            }),
            ts == number_tokens(b as int, e as int, step as int, w),
            out@.len() <= ts.len(),
            names(out@) == ts.take(out@.len() as int),
        decreases ts.len() - out@.len(),
    {
        let d = dec_i64(i as i64);
        let t = match width {
            Some(w) => zero_fill(d.as_str(), w),
            None => d,
        };
        let ghost k = out@.len() as int;
        proof {
            lemma_counting(b as int, e as int, step as int, k);
            lemma_names_push(out@, t);
            assert(ts[k] == t@);
            assert(ts.take(k).push(t@) =~= ts.take(k + 1));
            assert((k + 1) * step == k * step + step) by (nonlinear_arith);
        }
        out.push(t);
        i = i + step as i128;
    }
    proof {
        if b <= e {
            lemma_counting(b as int, e as int, step as int, out@.len() as int);
        }
        assert(names(out@) =~= ts);
    }
    out
}

/// The items of a range.
fn range_items(range: &str) -> (r: Result<Vec<String>, Error>)
    ensures
        outcome(r, |v: Vec<String>| names(v@)) == range_tokens(range@),
{
    let bounds = split_text(range, ':');
    let ghost ns = names(bounds@);
    if bounds.len() != 2 && bounds.len() != 3 {
        return Err(range_err("host range must be begin:end or begin:end:step"));
    }
    assert(ns[0] == bounds@[0]@ && ns[1] == bounds@[1]@);
    assert(bounds@.len() == 3 ==> ns[2] == bounds@[2]@);
    let mut beg = chars_of(bounds[0].as_str());
    let end = chars_of(bounds[1].as_str());
    if beg.len() == 0 {
        beg.push('0');
        assert(beg@ =~= seq!['0']);
    }
    if end.len() == 0 {
        return Err(range_err("host range must specify end value"));
    }
    let step: i64 = if bounds.len() == 3 {
        match parse_i64(bounds[2].as_str()) {
            Some(n) => n,
            None => {
                return Err(range_err("invalid step in host range"));
            },
        }
    } else {
        1
    };
    if step == 0 {
        return Err(range_err("host range step cannot be zero"));
    }
    let padded = beg[0] == '0' && beg.len() > 1;
    if padded && byte_len(&beg) != byte_len(&end) {
        return Err(
            range_err("host range must specify equal-length begin and end formats"),
        );
    }
    if beg.len() == 1 && end.len() == 1 && letter(beg[0]) && letter(end[0]) {
        let a = index_of_letter(beg[0]);
        let b = index_of_letter(end[0]);
        if a > b {
            return Err(range_err("host range must have begin <= end"));
        }
        return Ok(letter_items(a, b, step));
    }
    let b: i64 = match parse_i64(text_of(beg.as_slice()).as_str()) {
        Some(n) => n,
        None => {
            return Err(range_err("invalid begin in host range"));
        },
    };
    let e: i64 = match parse_i64(text_of(end.as_slice()).as_str()) {
        Some(n) => n,
        None => {
            return Err(range_err("invalid end in host range"));
        },
    };
    let width: Option<usize> = if padded {
        Some(beg.len())
    } else {
        None
    };
    Ok(number_items(b, e, step, width))
}

/// Finds the first `c` of a line and replaces it by a bar.
fn replace_first(cs: &mut Vec<char>, c: char)
    ensures
        final(cs)@ == bar_first(old(cs)@, c),
{
    let i = find_from(cs, 0, c);
    assert(cs@.skip(0) =~= cs@);
    if i < cs.len() {
        cs.set(i, '|');
    }
}

/// Cuts a line at its first range.
fn cut_range(line: &str) -> (r: Option<(String, String, String)>)
    ensures
        (match r {
            Some(p) => Some((p.0@, p.1@, p.2@)),
            None => None,
        }) == range_parts(line@),
{
    let mut cs = chars_of(line);
    replace_first(&mut cs, '[');
    replace_first(&mut cs, ']');
    assert(cs@.skip(0) =~= cs@);
    let i = find_from(&cs, 0, '|');
    if i == cs.len() {
        return None;
    }
    let j = find_from(&cs, i + 1, '|');
    if j == cs.len() {
        return None;
    }
    let head = text_span(&cs, 0, i);
    let range = text_span(&cs, i + 1, j);
    let tail = text_span(&cs, j + 1, cs.len());
    proof {
        let rest = cs@.skip(i + 1);
        assert(head@ =~= cs@.take(i as int));
        assert(range@ =~= rest.take(j - i - 1));
        assert(tail@ =~= rest.skip(j - i));
    }
    Some((head, range, tail))
}

/// Whether a text holds an opening bracket.
fn detect_range(s: &str) -> (r: bool)
    ensures
        r == s@.contains('['),
{
    let cs = chars_of(s);
    let i = find_from(&cs, 0, '[');
    proof {
        assert(cs@.skip(0) =~= cs@);
        lemma_find_char(s@, '[');
    }
    i < cs.len()
}

/// Expands the ranges of a line, from the first to the last.
pub fn expand_hostname_range(line: &str) -> (r: Result<Vec<String>, Error>)
    ensures
        outcome(r, |v: Vec<String>| names(v@)) == expanded(line@),
    decreases bracket_count(line@),
{
    let (head, range, tail) = match cut_range(line) {
        Some(parts) => parts,
        None => {
            return Err(range_err("host range is malformed"));
        },
    };
    let items = match range_items(range.as_str()) {
        Ok(items) => items,
        Err(e) => {
            return Err(e);
        },
    };
    let ghost ts = names(items@);
    proof {
        lemma_tokens_plain(range@);
        assert forall|k: int| 0 <= k < ts.len() implies bracket_count(
            head@ + #[trigger] ts[k] + tail@,
        ) < bracket_count(line@) || !(head@ + ts[k] + tail@).contains('[') by {
            lemma_fewer_brackets(line@, ts[k]);
        }
    }
    let mut all: Vec<String> = Vec::new();
    let mut k: usize = 0;
    assert(names(all@) =~= Seq::empty());
    assert(ts.take(0) =~= Seq::empty());
    while k < items.len()
        invariant
            k <= items.len(),
            ts == names(items@),
            expanded(line@) == expanded_items(line@, head@, ts, tail@),
            expanded_items(line@, head@, ts.take(k as int), tail@) == Ok::<
                Seq<Name>,
                ErrorView,
            >(names(all@)),
            forall|k: int|
                0 <= k < ts.len() ==> bracket_count(head@ + #[trigger] ts[k] + tail@)
                    < bracket_count(line@) || !(head@ + ts[k] + tail@).contains('['),
        decreases items.len() - k,
    {
        let mut name = head.clone();
        name.append(items[k].as_str());
        name.append(tail.as_str());
        proof {
            assert(ts[k as int] == items@[k as int]@);
            let t1 = ts.take(k + 1);
            assert(t1.drop_last() =~= ts.take(k as int));
            assert forall|m: int| 0 <= m < t1.len() implies bracket_count(
                head@ + #[trigger] t1[m] + tail@,
            ) < bracket_count(line@) || !(head@ + t1[m] + tail@).contains('[') by {
                assert(t1[m] == ts[m]);
            }
        }
        if detect_range(name.as_str()) {
            let mut more = match expand_hostname_range(name.as_str()) {
                Ok(more) => more,
                Err(e) => {
                    proof {
                        lemma_error_stays(line@, head@, ts, tail@, k + 1);
                    }
                    return Err(e);
                },
            };
            let ghost (x, y) = (all@, more@);
            all.append(&mut more);
            assert(names(all@) =~= names(x) + names(y));
        } else {
            proof {
                lemma_names_push(all@, name);
            }
            all.push(name);
        }
        k += 1;
    }
    assert(ts.take(k as int) =~= ts);
    Ok(all)
}

/// An error for the first items is the error for all.
proof fn lemma_error_stays(
    line: Seq<char>,
    head: Seq<char>,
    ts: Seq<Name>,
    tail: Seq<char>,
    k: int,
)
    requires
        0 <= k <= ts.len(),
        expanded_items(line, head, ts.take(k), tail) is Err,
        forall|k: int|
            0 <= k < ts.len() ==> bracket_count(head + #[trigger] ts[k] + tail) < bracket_count(
                line,
            ) || !(head + ts[k] + tail).contains('['),
    ensures
        expanded_items(line, head, ts, tail) == expanded_items(line, head, ts.take(k), tail),
    decreases ts.len() - k,
{
    if k == ts.len() {
        assert(ts.take(k) =~= ts);
    } else {
        let t1 = ts.take(k + 1);
        assert(t1.drop_last() =~= ts.take(k));
        assert forall|m: int| 0 <= m < t1.len() implies bracket_count(
            head + #[trigger] t1[m] + tail,
        ) < bracket_count(line) || !(head + t1[m] + tail).contains('[') by {
            assert(t1[m] == ts[m]);
        }
        lemma_error_stays(line, head, ts, tail, k + 1);
    }
}

/// Expands a host pattern into host names and the port they share.
pub fn expand_hostpattern(pattern: &str) -> (r: Result<(Vec<String>, Option<u32>), Error>)
    ensures
        outcome(r, |v: (Vec<String>, Option<u32>)| (names(v.0@), v.1)) == expanded_pattern(
            pattern@,
        ),
{
    let (p, port) = split_port(pattern);
    if detect_range(p.as_str()) {
        match expand_hostname_range(p.as_str()) {
            Ok(hosts) => Ok((hosts, port)),
            Err(e) => Err(e),
        }
    } else {
        let mut hosts: Vec<String> = Vec::new();
        hosts.push(p);
        assert(names(hosts@) =~= seq![p@]);
        Ok((hosts, port))
    }
}

/// A pattern without brackets or colons stands for itself, without a port.
pub proof fn law_plain_pattern(p: Seq<char>)
    requires
        !p.contains('['),
        !p.contains(':'),
    ensures
        expanded_pattern(p) == Ok::<(Seq<Name>, Option<u32>), ErrorView>((seq![p], None)),
{
    lemma_no_colon(p);
}

proof fn lemma_no_colon(p: Seq<char>)
    requires
        !p.contains(':'),
    ensures
        last_colon(p) is None,
    decreases p.len(),
{
    if p.len() > 0 {
        assert(p[p.len() - 1] == p.last());
        assert(p.contains(p.last()));
        assert forall|x: char| p.drop_last().contains(x) implies p.contains(x) by {
            let i = choose|i: int| 0 <= i < p.len() - 1 && p.drop_last()[i] == x;
            assert(p[i] == x);
        }
        lemma_no_colon(p.drop_last());
    }
}

proof fn lemma_items_plain(
    line: Seq<char>,
    head: Seq<char>,
    ts: Seq<Name>,
    tail: Seq<char>,
)
    requires
        forall|k: int|
            0 <= k < ts.len() ==> bracket_count(head + #[trigger] ts[k] + tail) < bracket_count(
                line,
            ) || !(head + ts[k] + tail).contains('['),
        expanded_items(line, head, ts, tail) is Ok,
    ensures
        forall|k: int|
            0 <= k < expanded_items(line, head, ts, tail)->Ok_0.len() ==> !(
            #[trigger] expanded_items(line, head, ts, tail)->Ok_0[k]).contains('['),
    decreases bracket_count(line), 0nat, ts.len(),
{
    if ts.len() > 0 {
        let u = ts.drop_last();
        assert forall|k: int| 0 <= k < u.len() implies bracket_count(head + #[trigger] u[k] + tail)
            < bracket_count(line) || !(head + u[k] + tail).contains('[') by {
            assert(u[k] == ts[k]);
        }
        lemma_items_plain(line, head, u, tail);
        let name = head + ts[ts.len() - 1] + tail;
        if name.contains('[') {
            law_no_bracket_left(name);
        }
    }
}

/// No host name that a range expands to holds a range itself.
pub proof fn law_no_bracket_left(line: Seq<char>)
    requires
        expanded(line) is Ok,
    ensures
        forall|k: int|
            0 <= k < expanded(line)->Ok_0.len() ==> !(
            #[trigger] expanded(line)->Ok_0[k]).contains('['),
    decreases bracket_count(line), 1nat, 0nat,
{
    let (head, range, tail) = range_parts(line).unwrap();
    let ts = range_tokens(range)->Ok_0;
    lemma_tokens_plain(range);
    assert forall|k: int| 0 <= k < ts.len() implies bracket_count(head + #[trigger] ts[k] + tail)
        < bracket_count(line) || !(head + ts[k] + tail).contains('[') by {
        lemma_fewer_brackets(line, ts[k]);
    }
    lemma_items_plain(line, head, ts, tail);
}

/// A line with one range gives one name for each of the range's items, in order.
pub proof fn law_one_name_per_item(line: Seq<char>)
    requires
        expanded(line) is Ok,
        !range_parts(line).unwrap().2.contains('['),
        !range_parts(line).unwrap().0.contains('['),
    ensures
        ({
            let (head, range, tail) = range_parts(line).unwrap();
            let ts = range_tokens(range)->Ok_0;
            expanded(line) == Ok::<Seq<Name>, ErrorView>(
                Seq::new(ts.len(), |k: int| head + ts[k] + tail),
            )
        }),
{
    let (head, range, tail) = range_parts(line).unwrap();
    let ts = range_tokens(range)->Ok_0;
    lemma_tokens_plain(range);
    assert forall|k: int| 0 <= k < ts.len() implies !(head + #[trigger] ts[k] + tail).contains(
        '[',
    ) by {
        let s = head + ts[k] + tail;
        if s.contains('[') {
            let j = choose|j: int| 0 <= j < s.len() && s[j] == '[';
            if j < head.len() {
                assert(head[j] == '[');
            } else if j < head.len() + ts[k].len() {
                assert(ts[k][j - head.len()] == '[');
            } else {
                assert(tail[j - head.len() - ts[k].len()] == '[');
            }
        }
    }
    lemma_items_flat(line, head, ts, tail);
}

pub(crate) proof fn lemma_items_flat(line: Seq<char>, head: Seq<char>, ts: Seq<Name>, tail: Seq<char>)
    requires
        forall|k: int| 0 <= k < ts.len() ==> !(head + #[trigger] ts[k] + tail).contains('['),
    ensures
        expanded_items(line, head, ts, tail) == Ok::<Seq<Name>, ErrorView>(
            Seq::new(ts.len(), |k: int| head + ts[k] + tail),
        ),
    decreases ts.len(),
{
    let all = Seq::new(ts.len(), |k: int| head + ts[k] + tail);
    if ts.len() == 0 {
        assert(all =~= Seq::empty());
    } else {
        let u = ts.drop_last();
        assert forall|k: int| 0 <= k < u.len() implies !(head + #[trigger] u[k] + tail).contains(
            '[',
        ) by {
            assert(u[k] == ts[k]);
        }
        lemma_items_flat(line, head, u, tail);
        assert(!(head + ts[ts.len() - 1] + tail).contains('['));
        assert(all =~= Seq::new(u.len(), |k: int| head + u[k] + tail).push(
            head + ts[ts.len() - 1] + tail,
        ));
    }
}

proof fn lemma_colon_behind(h: Seq<char>, d: Seq<char>)
    requires
        open_brackets(h) == 0,
        all_digits(d),
    ensures
        last_colon(h + seq![':'] + d) == Some(h.len() as int),
    decreases d.len(),
{
    let s = h + seq![':'] + d;
    if d.len() == 0 {
        assert(s =~= h.push(':'));
        assert(s.drop_last() =~= h);
    } else {
        assert(s.last() == d.last());
        assert(is_digit(d[d.len() - 1]));
        assert(s.drop_last() =~= h + seq![':'] + d.drop_last());
        assert forall|k: int| 0 <= k < d.drop_last().len() implies is_digit(
            #[trigger] d.drop_last()[k],
        ) by {
            assert(is_digit(d[k]));
        }
        lemma_colon_behind(h, d.drop_last());
    }
}

/// A host with a port behind it splits into the host and the port.
pub proof fn law_port_splits_off(h: Seq<char>, port: u32)
    requires
        open_brackets(h) == 0,
    ensures
        port_split(h + seq![':'] + dec(port as int)) == (h, Some(port)),
{
    let d = dec(port as int);
    let s = h + seq![':'] + d;
    lemma_dec_nat(port as nat);
    lemma_colon_behind(h, d);
    assert(s.skip(h.len() as int + 1) =~= d);
    assert(s.take(h.len() as int) =~= h);
}

/// What stands behind the last colon of a host is no port where it is empty, not all digits,
/// or too large for one; the colon then belongs to the host.
pub proof fn law_no_port(h: Seq<char>, t: Seq<char>)
    requires
        open_brackets(h) == 0,
        !t.contains(':'),
        t.len() == 0 || !all_digits(t) || digits_value(t) > u32::MAX,
    ensures
        port_split(h + seq![':'] + t) == (h + seq![':'] + t, None::<u32>),
{
    let s = h + seq![':'] + t;
    lemma_colon_before(h, t);
    assert(s.skip(h.len() as int + 1) =~= t);
}

proof fn lemma_colon_before(h: Seq<char>, t: Seq<char>)
    requires
        open_brackets(h) == 0,
        !t.contains(':'),
    ensures
        last_colon(h + seq![':'] + t) == Some(h.len() as int),
    decreases t.len(),
{
    let s = h + seq![':'] + t;
    if t.len() == 0 {
        assert(s.drop_last() =~= h);
        assert(s.last() == ':');
    } else {
        let u = t.drop_last();
        assert(!u.contains(':')) by {
            if u.contains(':') {
                let k = choose|k: int| 0 <= k < u.len() && u[k] == ':';
                assert(t[k] == ':');
            }
        }
        lemma_colon_before(h, u);
        assert(s.drop_last() =~= h + seq![':'] + u);
        assert(t.contains(t.last()));
        assert(s.last() == t.last());
    }
}

} // verus!
