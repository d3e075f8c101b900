//! What host ranges stand for: the numbers and letters of a range, the text around it, and
//! ranges behind one another.

use vstd::prelude::*;
use crate::assoc::Name;
use crate::error::ErrorView;
use crate::hostrange::{bar_first, bracket_count, expanded, expanded_items, lemma_counting, lemma_fewer_brackets, lemma_items_flat, lemma_tokens_plain, letter_at, letter_index, range_parts, range_tokens};
use crate::text::{all_digits, dec, dec_nat, digits_value, is_digit, is_letter, law_decimal_reads_back, lemma_dec_nat, lemma_find_char, lemma_find_char_unique, parse_i64_spec, split, utf8_len, zero_filled, zeros};

verus! {

/// A text without what marks a range.
pub open spec fn unmarked(s: Seq<char>) -> bool {
    !s.contains('[') && !s.contains(']') && !s.contains('|')
}

/// A line with a range in it.
pub open spec fn ranged(head: Seq<char>, range: Seq<char>, tail: Seq<char>) -> Seq<char> {
    head + seq!['['] + range + seq![']'] + tail
}

/// A range with a step.
pub open spec fn stepped(b: Seq<char>, e: Seq<char>, step: Seq<char>) -> Seq<char> {
    b + seq![':'] + e + seq![':'] + step
}

/// A range without a step.
pub open spec fn unstepped(b: Seq<char>, e: Seq<char>) -> Seq<char> {
    b + seq![':'] + e
}

proof fn lemma_contains_sum(a: Seq<char>, b: Seq<char>, c: char)
    ensures
        (a + b).contains(c) <==> a.contains(c) || b.contains(c),
{
    let s = a + b;
    if a.contains(c) {
        let i = choose|i: int| 0 <= i < a.len() && a[i] == c;
        assert(s[i] == c);
    }
    if b.contains(c) {
        let i = choose|i: int| 0 <= i < b.len() && b[i] == c;
        assert(s[a.len() + i] == c);
    }
    if s.contains(c) {
        let i = choose|i: int| 0 <= i < s.len() && s[i] == c;
        if i < a.len() {
            assert(a[i] == c);
        } else {
            assert(b[i - a.len()] == c);
        }
    }
}

/// The first range of a line is found.
proof fn lemma_parts(head: Seq<char>, range: Seq<char>, tail: Seq<char>)
    requires
        unmarked(head),
        unmarked(range),
    ensures
        range_parts(ranged(head, range, tail)) == Some((head, range, tail)),
{
    let line = ranged(head, range, tail);
    let i = head.len() as int;
    let j = i + 1 + range.len();
    assert forall|k: int| 0 <= k < i implies line[k] != '[' && line[k] != ']' && line[k] != '|' by {
        assert(line[k] == head[k]);
        assert(head.contains(head[k]));
    }
    assert forall|k: int| i < k < j implies line[k] != '[' && line[k] != ']' && line[k] != '|' by {
        assert(line[k] == range[k - i - 1]);
        assert(range.contains(range[k - i - 1]));
    }
    assert(line[i] == '[' && line[j] == ']');
    lemma_find_char_unique(line, '[', i);
    let a = bar_first(line, '[');
    assert(a == line.update(i, '|'));
    assert forall|k: int| 0 <= k < j implies a[k] != ']' by {}
    lemma_find_char_unique(a, ']', j);
    let b = bar_first(a, ']');
    assert(b == a.update(j, '|'));
    lemma_find_char_unique(b, '|', i);
    let rest = b.skip(i + 1);
    assert forall|k: int| 0 <= k < j - i - 1 implies rest[k] != '|' by {
        assert(rest[k] == b[i + 1 + k]);
    }
    assert(rest[j - i - 1] == '|');
    lemma_find_char_unique(rest, '|', j - i - 1);
    assert(b.take(i) =~= head);
    assert(rest.take(j - i - 1) =~= range);
    assert(rest.skip(j - i) =~= tail);
}

proof fn lemma_split_first(x: Seq<char>, rest: Seq<char>)
    requires
        !x.contains(':'),
    ensures
        split(x + seq![':'] + rest, ':') == seq![x] + split(rest, ':'),
        split(x, ':') == seq![x],
{
    let s = x + seq![':'] + rest;
    let n = x.len() as int;
    assert forall|j: int| 0 <= j < n implies s[j] != ':' by {
        assert(s[j] == x[j]);
        assert(x.contains(x[j]));
    }
    assert(s[n] == ':');
    lemma_find_char_unique(s, ':', n);
    assert(s.take(n) =~= x);
    assert(s.skip(n + 1) =~= rest);
    lemma_find_char(x, ':');
}

/// The bounds and the step of a range are found.
proof fn lemma_bounds(b: Seq<char>, e: Seq<char>, step: Seq<char>)
    requires
        !b.contains(':'),
        !e.contains(':'),
        !step.contains(':'),
    ensures
        split(stepped(b, e, step), ':') == seq![b, e, step],
        split(unstepped(b, e), ':') == seq![b, e],
{
    assert(stepped(b, e, step) =~= b + seq![':'] + (e + seq![':'] + step));
    lemma_split_first(b, e + seq![':'] + step);
    lemma_split_first(e, step);
    lemma_split_first(step, step);
    assert(split(stepped(b, e, step), ':') =~= seq![b, e, step]);
    lemma_split_first(b, e);
    assert(split(unstepped(b, e), ':') =~= seq![b, e]);
}

/// A line whose only range stands between two texts.
proof fn lemma_one_range(head: Seq<char>, range: Seq<char>, tail: Seq<char>)
    requires
        unmarked(head),
        unmarked(range),
        !tail.contains('['),
    ensures
        match range_tokens(range) {
            Ok(ts) => expanded(ranged(head, range, tail)) == Ok::<Seq<Name>, ErrorView>(
                Seq::new(ts.len(), |k: int| head + ts[k] + tail),
            ),
            Err(e) => expanded(ranged(head, range, tail)) == Err::<Seq<Name>, ErrorView>(e),
        },
{
    lemma_parts(head, range, tail);
    if let Ok(ts) = range_tokens(range) {
        lemma_tokens_plain(range);
        assert forall|k: int| 0 <= k < ts.len() implies !(head + #[trigger] ts[k] + tail).contains(
            '[',
        ) by {
            lemma_contains_sum(head + ts[k], tail, '[');
            lemma_contains_sum(head, ts[k], '[');
        }
        lemma_items_flat(ranged(head, range, tail), head, ts, tail);
    }
}

// ---------------------------------------------------------------------------------------
// Numbers
// ---------------------------------------------------------------------------------------

/// Leading zeros add nothing to a number.
proof fn lemma_leading_zeros(n: nat, d: Seq<char>)
    requires
        all_digits(d),
    ensures
        digits_value(zeros(n) + d) == digits_value(d),
        all_digits(zeros(n) + d),
    decreases d.len(), n,
{
    let s = zeros(n) + d;
    assert forall|i: int| 0 <= i < s.len() implies is_digit(#[trigger] s[i]) by {
        if i >= n {
            assert(s[i] == d[i - n]);
            assert(is_digit(d[i - n]));
        }
    }
    if d.len() > 0 {
        assert(s.drop_last() =~= zeros(n) + d.drop_last());
        assert forall|i: int| 0 <= i < d.drop_last().len() implies is_digit(
            #[trigger] d.drop_last()[i],
        ) by {
            assert(is_digit(d[i]));
        }
        lemma_leading_zeros(n, d.drop_last());
        assert(s.last() == d.last());
    } else if n > 0 {
        assert(s.drop_last() =~= zeros((n - 1) as nat) + d);
        lemma_leading_zeros((n - 1) as nat, d);
        assert(s.last() == '0');
    } else {
        assert(s =~= d);
    }
}

/// A number that is no larger than one that is written takes no more digits.
proof fn lemma_no_longer(n: nat, s: Seq<char>)
    requires
        all_digits(s),
        s.len() > 0,
        n <= digits_value(s),
    ensures
        dec_nat(n).len() <= s.len(),
    decreases n,
{
    if n >= 10 {
        let u = s.drop_last();
        assert(is_digit(s[s.len() - 1]));
        assert forall|i: int| 0 <= i < u.len() implies is_digit(#[trigger] u[i]) by {
            assert(is_digit(s[i]));
        }
        if u.len() == 0 {
            assert(digits_value(u) == 0);
            assert(false);
        }
        assert(n / 10 <= digits_value(u));
        lemma_no_longer(n / 10, u);
    }
}

proof fn lemma_digits_parse(s: Seq<char>)
    requires
        all_digits(s),
        s.len() > 0,
        digits_value(s) <= i64::MAX,
    ensures
        parse_i64_spec(s) == Some(digits_value(s) as i64),
        utf8_len(s) == s.len(),
        unmarked(s),
        !s.contains(':'),
{
    assert(is_digit(s[0]));
    lemma_digit_bytes(s);
    assert forall|i: int| 0 <= i < s.len() implies s[i] != '[' && s[i] != ']' && s[i] != '|' && s[i]
        != ':' by {
        assert(is_digit(s[i]));
    }
}

proof fn lemma_digit_bytes(s: Seq<char>)
    requires
        all_digits(s),
    ensures
        utf8_len(s) == s.len(),
    decreases s.len(),
{
    if s.len() > 0 {
        let u = s.drop_last();
        assert forall|i: int| 0 <= i < u.len() implies is_digit(#[trigger] u[i]) by {
            assert(is_digit(s[i]));
        }
        assert(is_digit(s[s.len() - 1]));
        lemma_digit_bytes(u);
    }
}

proof fn lemma_dec_plain(i: int)
    ensures
        unmarked(dec(i)),
        !dec(i).contains(':'),
{
    let n: nat = if i < 0 {
        (-i) as nat
    } else {
        i as nat
    };
    lemma_dec_nat(n);
    assert forall|m: int| 0 <= m < dec(i).len() implies dec(i)[m] != '[' && dec(i)[m] != ']' && dec(
        i,
    )[m] != '|' && dec(i)[m] != ':' by {
        if i < 0 && m > 0 {
            assert(dec(i)[m] == dec_nat(n)[m - 1]);
            assert(is_digit(dec_nat(n)[m - 1]));
        } else if i >= 0 {
            assert(is_digit(dec_nat(n)[m]));
        }
    }
}

proof fn lemma_stepped_unmarked(b: Seq<char>, e: Seq<char>, step: Seq<char>)
    requires
        unmarked(b),
        unmarked(e),
        unmarked(step),
    ensures
        unmarked(stepped(b, e, step)),
        unmarked(unstepped(b, e)),
{
    assert forall|c: char| c == '[' || c == ']' || c == '|' implies !#[trigger] stepped(
        b,
        e,
        step,
    ).contains(c) && !unstepped(b, e).contains(c) by {
        lemma_contains_sum(b + seq![':'] + e + seq![':'], step, c);
        lemma_contains_sum(b + seq![':'] + e, seq![':'], c);
        lemma_contains_sum(b + seq![':'], e, c);
        lemma_contains_sum(b, seq![':'], c);
        assert(!seq![':'].contains(c)) by {
            assert(seq![':'][0] == ':');
        }
    }
    assert(!stepped(b, e, step).contains('[') && !stepped(b, e, step).contains(']') && !stepped(
        b,
        e,
        step,
    ).contains('|'));
}

/// Numbers without leading zeros. The names of `head[x:y:step]tail` are those with the
/// numbers `x`, `x + step`, `x + 2 * step` and so on in place of the range, as long as they
/// are not beyond `y`.
pub proof fn law_numbers_of_a_range(
    head: Seq<char>,
    x: i64,
    y: i64,
    step: i64,
    tail: Seq<char>,
    k: int,
)
    requires
        unmarked(head),
        !tail.contains('['),
        step > 0,
        k >= 0,
    ensures
        ({
            let line = ranged(head, stepped(dec(x as int), dec(y as int), dec(step as int)), tail);
            &&& expanded(line) is Ok
            &&& k < expanded(line)->Ok_0.len() <==> x + k * step <= y
            &&& k < expanded(line)->Ok_0.len() ==> expanded(line)->Ok_0[k] == head + dec(
                x + k * step,
            ) + tail
        }),
{
    let (b, e, s) = (dec(x as int), dec(y as int), dec(step as int));
    lemma_dec_plain(x as int);
    lemma_dec_plain(y as int);
    lemma_dec_plain(step as int);
    law_decimal_reads_back(x as int);
    law_decimal_reads_back(y as int);
    law_decimal_reads_back(step as int);
    lemma_bounds(b, e, s);
    lemma_stepped_unmarked(b, e, s);
    lemma_one_range(head, stepped(b, e, s), tail);
    let n: nat = if x < 0 {
        (-x) as nat
    } else {
        x as nat
    };
    lemma_dec_nat(n);
    assert(is_digit(dec_nat(n)[0]));
    assert(b.len() > 0 && e.len() > 0) by {
        lemma_dec_nat(y as nat);
        lemma_dec_nat((-y) as nat);
    }
    assert(!(b[0] == '0' && b.len() > 1));
    assert(!is_letter(b[0]));
    assert(k * step >= 0) by (nonlinear_arith)
        requires
            k >= 0,
            step > 0,
    ;
    if x <= y {
        lemma_counting(x as int, y as int, step as int, k);
    }
}

/// Numbers with leading zeros. Where the first number of a range is written with a leading
/// zero, every name of the range has a number of just as many digits in its place, and the
/// numbers go up by the step.
pub proof fn law_padded_numbers_of_a_range(
    head: Seq<char>,
    b: Seq<char>,
    e: Seq<char>,
    step: i64,
    tail: Seq<char>,
    k: int,
)
    requires
        unmarked(head),
        !tail.contains('['),
        step > 0,
        k >= 0,
        all_digits(b),
        all_digits(e),
        b.len() > 1,
        b[0] == '0',
        e.len() == b.len(),
        digits_value(b) <= i64::MAX,
        digits_value(e) <= i64::MAX,
    ensures
        ({
            let line = ranged(head, stepped(b, e, dec(step as int)), tail);
            let name = expanded(line)->Ok_0[k];
            let t = name.subrange(head.len() as int, name.len() - tail.len());
            &&& expanded(line) is Ok
            &&& k < expanded(line)->Ok_0.len() <==> digits_value(b) + k * step <= digits_value(e)
            &&& k < expanded(line)->Ok_0.len() ==> name == head + t + tail && t.len() == b.len()
                && all_digits(t) && digits_value(t) == digits_value(b) + k * step
        }),
{
    let s = dec(step as int);
    lemma_dec_plain(step as int);
    law_decimal_reads_back(step as int);
    lemma_digits_parse(b);
    lemma_digits_parse(e);
    lemma_bounds(b, e, s);
    lemma_stepped_unmarked(b, e, s);
    lemma_one_range(head, stepped(b, e, s), tail);
    let (x, y) = (digits_value(b) as int, digits_value(e) as int);
    assert(k * step >= 0) by (nonlinear_arith)
        requires
            k >= 0,
            step > 0,
    ;
    if x <= y {
        lemma_counting(x, y, step as int, k);
    }
    if x + k * step <= y {
        let n = (x + k * step) as nat;
        let d = dec_nat(n);
        lemma_dec_nat(n);
        lemma_no_longer(n, e);
        let t = zero_filled(d, b.len());
        lemma_leading_zeros((b.len() - d.len()) as nat, d);
        if d.len() == b.len() {
            assert(t == d);
        }
        let name = head + t + tail;
        assert(name.subrange(head.len() as int, name.len() - tail.len()) =~= t);
    }
}

/// A step picks from a range: the names of `b:e:step` are every `step`-th of `b:e`.
pub proof fn law_steps_pick(
    head: Seq<char>,
    b: Seq<char>,
    e: Seq<char>,
    step: i64,
    tail: Seq<char>,
    k: int,
)
    requires
        unmarked(head),
        !tail.contains('['),
        step > 0,
        0 <= k,
        all_digits(b),
        all_digits(e),
        b.len() > 0,
        e.len() > 0,
        b.len() > 1 && b[0] == '0' ==> e.len() == b.len(),
        digits_value(b) <= i64::MAX,
        digits_value(e) <= i64::MAX,
    ensures
        ({
            let every = expanded(ranged(head, unstepped(b, e), tail));
            let some = expanded(ranged(head, stepped(b, e, dec(step as int)), tail));
            &&& every is Ok && some is Ok
            &&& k < some->Ok_0.len() <==> k * step < every->Ok_0.len()
            &&& k < some->Ok_0.len() ==> some->Ok_0[k] == every->Ok_0[k * step]
        }),
{
    let s = dec(step as int);
    lemma_dec_plain(step as int);
    law_decimal_reads_back(step as int);
    lemma_digits_parse(b);
    lemma_digits_parse(e);
    lemma_bounds(b, e, s);
    lemma_stepped_unmarked(b, e, s);
    lemma_one_range(head, stepped(b, e, s), tail);
    lemma_one_range(head, unstepped(b, e), tail);
    assert(is_digit(b[0]));
    let (x, y) = (digits_value(b) as int, digits_value(e) as int);
    assert(k * step >= 0) by (nonlinear_arith)
        requires
            k >= 0,
            step > 0,
    ;
    if x <= y {
        lemma_counting(x, y, step as int, k);
        lemma_counting(x, y, 1, k * step);
    }
}

/// A range without a step has the step 1, and one without a begin begins at 0.
pub proof fn law_what_a_range_leaves_out(
    head: Seq<char>,
    b: Seq<char>,
    e: Seq<char>,
    tail: Seq<char>,
)
    requires
        unmarked(head),
        unmarked(b),
        unmarked(e),
        !b.contains(':'),
        !e.contains(':'),
        !tail.contains('['),
    ensures
        expanded(ranged(head, unstepped(b, e), tail)) == expanded(
            ranged(head, stepped(b, e, seq!['1']), tail),
        ),
        expanded(ranged(head, unstepped(Seq::empty(), e), tail)) == expanded(
            ranged(head, unstepped(seq!['0'], e), tail),
        ),
{
    let (none, zero, one) = (Seq::<char>::empty(), seq!['0'], seq!['1']);
    assert(dec(1) =~= one);
    assert(dec(0) =~= zero);
    lemma_dec_plain(1);
    lemma_dec_plain(0);
    law_decimal_reads_back(1);
    lemma_bounds(b, e, one);
    lemma_bounds(none, e, one);
    lemma_bounds(zero, e, one);
    lemma_stepped_unmarked(b, e, one);
    lemma_stepped_unmarked(none, e, one);
    lemma_stepped_unmarked(zero, e, one);
    lemma_one_range(head, unstepped(b, e), tail);
    lemma_one_range(head, stepped(b, e, one), tail);
    lemma_one_range(head, unstepped(none, e), tail);
    lemma_one_range(head, unstepped(zero, e), tail);
    assert(range_tokens(unstepped(b, e)) == range_tokens(stepped(b, e, one)));
    assert(range_tokens(unstepped(none, e)) == range_tokens(unstepped(zero, e)));
}

// ---------------------------------------------------------------------------------------
// Letters
// ---------------------------------------------------------------------------------------

/// The letters in the order of ranges.
pub open spec fn letters() -> Seq<char> {
    "abcdefghijklmnopqrstuvwxyzABCDEFGHIJKLMNOPQRSTUVWXYZ"@
}

proof fn lemma_letters(i: int)
    requires
        0 <= i < 52,
    ensures
        letters().len() == 52,
        is_letter(letters()[i]),
        letter_index(letters()[i]) == i,
        letter_at(i) == letters()[i],
{
    reveal_strlit("abcdefghijklmnopqrstuvwxyzABCDEFGHIJKLMNOPQRSTUVWXYZ");
}

/// Letters. The names of `head[x:y:step]tail` are those with every `step`-th letter from `x`
/// on in place of the range, up to `y`; the capital letters come behind the small ones.
pub proof fn law_letters_of_a_range(
    head: Seq<char>,
    a: int,
    b: int,
    step: i64,
    tail: Seq<char>,
    k: int,
)
    requires
        unmarked(head),
        !tail.contains('['),
        0 <= a <= b < letters().len(),
        step > 0,
        k >= 0,
    ensures
        ({
            let line = ranged(
                head,
                stepped(seq![letters()[a]], seq![letters()[b]], dec(step as int)),
                tail,
            );
            &&& expanded(line) is Ok
            &&& k < expanded(line)->Ok_0.len() <==> a + k * step <= b
            &&& k < expanded(line)->Ok_0.len() ==> expanded(line)->Ok_0[k] == head + seq![
                letters()[a + k * step],
            ] + tail
        }),
{
    lemma_letters(0);
    lemma_letters(a);
    lemma_letters(b);
    let (x, y, s) = (seq![letters()[a]], seq![letters()[b]], dec(step as int));
    assert(x[0] == letters()[a] && y[0] == letters()[b]);
    lemma_dec_plain(step as int);
    law_decimal_reads_back(step as int);
    lemma_bounds(x, y, s);
    lemma_stepped_unmarked(x, y, s);
    lemma_one_range(head, stepped(x, y, s), tail);
    assert(k * step >= 0) by (nonlinear_arith)
        requires
            k >= 0,
            step > 0,
    ;
    lemma_counting(a, b, step as int, k);
    if a + k * step <= b {
        lemma_letters(a + k * step);
    }
}

// ---------------------------------------------------------------------------------------
// Text around ranges, and ranges behind one another
// ---------------------------------------------------------------------------------------

/// The text around a range stands around every name, and a range that is no range is the
/// same error with text around it.
pub proof fn law_text_around_a_range(head: Seq<char>, range: Seq<char>, tail: Seq<char>, k: int)
    requires
        unmarked(head),
        unmarked(range),
        !tail.contains('['),
    ensures
        ({
            let bare = expanded(ranged(Seq::empty(), range, Seq::empty()));
            let full = expanded(ranged(head, range, tail));
            match bare {
                Ok(ts) => full is Ok && full->Ok_0.len() == ts.len() && (0 <= k < ts.len()
                    ==> full->Ok_0[k] == head + ts[k] + tail),
                Err(e) => full == Err::<Seq<Name>, ErrorView>(e),
            }
        }),
{
    let none = Seq::<char>::empty();
    lemma_one_range(head, range, tail);
    lemma_one_range(none, range, none);
    if let Ok(ts) = range_tokens(range) {
        if 0 <= k < ts.len() {
            assert(none + ts[k] + none =~= ts[k]);
        }
    }
}

proof fn lemma_product(
    line: Seq<char>,
    head: Seq<char>,
    ts: Seq<Name>,
    mid: Seq<char>,
    range: Seq<char>,
    tail: Seq<char>,
    us: Seq<Name>,
    p: int,
    q: int,
)
    requires
        unmarked(head),
        unmarked(mid),
        unmarked(range),
        !tail.contains('['),
        range_tokens(range) == Ok::<Seq<Name>, ErrorView>(us),
        forall|k: int| 0 <= k < ts.len() ==> unmarked(#[trigger] ts[k]),
        forall|k: int|
            0 <= k < ts.len() ==> bracket_count(
                head + #[trigger] ts[k] + ranged(mid, range, tail),
            ) < bracket_count(line),
        0 <= q < us.len(),
    ensures
        ({
            let r = expanded_items(line, head, ts, ranged(mid, range, tail));
            &&& r is Ok
            &&& r->Ok_0.len() == ts.len() * us.len()
            &&& 0 <= p < ts.len() ==> p * us.len() + q < r->Ok_0.len() && r->Ok_0[p * us.len() + q]
                == head + ts[p] + mid + us[q] + tail
        }),
    decreases ts.len(),
{
    let rest = ranged(mid, range, tail);
    let n = us.len() as int;
    if ts.len() == 0 {
        assert(0 * n == 0) by (nonlinear_arith);
    } else {
        let u = ts.drop_last();
        let m = u.len() as int;
        assert forall|k: int| 0 <= k < u.len() implies unmarked(#[trigger] u[k]) by {
            assert(u[k] == ts[k]);
        }
        assert forall|k: int| 0 <= k < u.len() implies bracket_count(head + #[trigger] u[k] + rest)
            < bracket_count(line) by {
            assert(u[k] == ts[k]);
        }
        lemma_product(line, head, u, mid, range, tail, us, p, q);
        let t = ts[m];
        let front = head + t + mid;
        assert forall|c: char| c == '[' || c == ']' || c == '|' implies !#[trigger] front.contains(
            c,
        ) by {
            lemma_contains_sum(head + t, mid, c);
            lemma_contains_sum(head, t, c);
        }
        assert(unmarked(front)) by {
            assert(!front.contains('[') && !front.contains(']') && !front.contains('|'));
        }
        let name = head + t + rest;
        assert(name =~= ranged(front, range, tail));
        lemma_one_range(front, range, tail);
        assert(name[front.len() as int] == '[');
        assert(name.contains('['));
        let before = expanded_items(line, head, u, rest)->Ok_0;
        let more = expanded(name)->Ok_0;
        let r = expanded_items(line, head, ts, rest);
        assert(r == Ok::<Seq<Name>, ErrorView>(before + more));
        assert((m + 1) * n == m * n + n) by (nonlinear_arith);
        if 0 <= p < m {
            assert(p * n + q < m * n) by (nonlinear_arith)
                requires
                    0 <= p < m,
                    0 <= q < n,
            ;
            assert(r->Ok_0[p * n + q] == before[p * n + q]);
            assert(u[p] == ts[p]);
        } else if p == m {
            assert(r->Ok_0[p * n + q] == more[q]);
            assert(more[q] == front + us[q] + tail);
        }
    }
}

/// Two ranges. A line with two ranges stands for every name of the first with every name of
/// the second behind it; the second goes round faster.
pub proof fn law_two_ranges(
    head: Seq<char>,
    first: Seq<char>,
    mid: Seq<char>,
    second: Seq<char>,
    tail: Seq<char>,
    p: int,
    q: int,
)
    requires
        unmarked(head),
        unmarked(first),
        unmarked(mid),
        unmarked(second),
        !tail.contains('['),
        expanded(ranged(Seq::empty(), first, Seq::empty())) is Ok,
        expanded(ranged(Seq::empty(), second, Seq::empty())) is Ok,
    ensures
        ({
            let ts = expanded(ranged(Seq::empty(), first, Seq::empty()))->Ok_0;
            let us = expanded(ranged(Seq::empty(), second, Seq::empty()))->Ok_0;
            let r = expanded(ranged(head, first, ranged(mid, second, tail)));
            0 <= p < ts.len() && 0 <= q < us.len() ==> r is Ok && r->Ok_0.len() == ts.len()
                * us.len() && p * us.len() + q < r->Ok_0.len() && r->Ok_0[p * us.len() + q] == head
                + ts[p] + mid + us[q] + tail
        }),
{
    let none = Seq::<char>::empty();
    lemma_one_range(none, first, none);
    lemma_one_range(none, second, none);
    let xs = range_tokens(first)->Ok_0;
    let ys = range_tokens(second)->Ok_0;
    if 0 <= p < xs.len() && 0 <= q < ys.len() {
        let rest = ranged(mid, second, tail);
        let line = ranged(head, first, rest);
        lemma_parts(head, first, rest);
        lemma_tokens_unmarked(first);
        assert forall|k: int| 0 <= k < xs.len() implies bracket_count(
            head + #[trigger] xs[k] + rest,
        ) < bracket_count(line) by {
            lemma_fewer_brackets(line, xs[k]);
            let s = head + xs[k] + rest;
            assert(s[(head.len() + xs[k].len() + mid.len()) as int] == '[');
            assert(s.contains('['));
        }
        lemma_product(line, head, xs, mid, second, tail, ys, p, q);
        assert(none + xs[p] + none =~= xs[p]);
        assert(none + ys[q] + none =~= ys[q]);
    }
}

/// No item of a range holds what marks a range.
proof fn lemma_tokens_unmarked(r: Seq<char>)
    requires
        range_tokens(r) is Ok,
    ensures
        forall|k: int|
            0 <= k < range_tokens(r)->Ok_0.len() ==> unmarked(#[trigger] range_tokens(r)->Ok_0[k]),
{
    let ts = range_tokens(r)->Ok_0;
    assert forall|k: int| 0 <= k < ts.len() implies unmarked(#[trigger] ts[k]) by {
        let bounds = split(r, ':');
        let beg = if bounds[0].len() == 0 {
            seq!['0']
        } else {
            bounds[0]
        };
        let end = bounds[1];
        let step = if bounds.len() == 3 {
            parse_i64_spec(bounds[2]).unwrap()
        } else {
            1i64
        };
        let t = ts[k];
        if beg.len() == 1 && end.len() == 1 && is_letter(beg[0]) && is_letter(end[0]) {
            let a = letter_index(beg[0]);
            let b = letter_index(end[0]);
            lemma_counting(a, b, step as int, k);
            assert(k * step >= 0) by (nonlinear_arith)
                requires
                    k >= 0,
                    step > 0,
            ;
            assert(t == seq![letter_at(a + k * step)]);
            assert(is_letter(letter_at(a + k * step)));
        } else {
            let i = parse_i64_spec(beg).unwrap() + k * step;
            lemma_dec_plain(i);
            let d = dec(i);
            let w: nat = if beg[0] == '0' && beg.len() > 1 {
                beg.len()
            } else {
                0
            };
            assert(t == zero_filled(d, w));
            assert forall|m: int| 0 <= m < t.len() implies t[m] != '[' && t[m] != ']' && t[m] != '|' by {
                if t.len() > d.len() && m >= t.len() - d.len() {
                    assert(t[m] == d[m - (t.len() - d.len())]);
                    assert(d.contains(t[m]));
                } else if t.len() == d.len() {
                    assert(d.contains(d[m]));
                }
            }
        }
    }
}

// ---------------------------------------------------------------------------------------
// Texts that are no ranges
// ---------------------------------------------------------------------------------------

/// A range without a colon or without an end is an error.
pub proof fn law_ranges_need_bounds(head: Seq<char>, b: Seq<char>, tail: Seq<char>)
    requires
        unmarked(head),
        unmarked(b),
        !b.contains(':'),
        !tail.contains('['),
    ensures
        expanded(ranged(head, b, tail)) is Err,
        expanded(ranged(head, unstepped(b, Seq::empty()), tail)) is Err,
{
    let none = Seq::<char>::empty();
    lemma_bounds(b, none, none);
    lemma_stepped_unmarked(b, none, none);
    lemma_split_first(b, b);
    lemma_one_range(head, b, tail);
    lemma_one_range(head, unstepped(b, none), tail);
}

/// A range with the step 0 is an error, and so is one whose first number has a leading zero
/// and more or fewer digits than the last.
pub proof fn law_ranges_get_on(head: Seq<char>, b: Seq<char>, e: Seq<char>, tail: Seq<char>)
    requires
        unmarked(head),
        !tail.contains('['),
        all_digits(b),
        all_digits(e),
        b.len() > 0,
        e.len() > 0,
        digits_value(b) <= i64::MAX,
        digits_value(e) <= i64::MAX,
    ensures
        expanded(ranged(head, stepped(b, e, seq!['0']), tail)) is Err,
        b.len() > 1 && b[0] == '0' && e.len() != b.len() ==> expanded(
            ranged(head, unstepped(b, e), tail),
        ) is Err,
{
    let zero = seq!['0'];
    assert(dec(0) =~= zero);
    lemma_digits_parse(b);
    lemma_digits_parse(e);
    lemma_dec_plain(0);
    law_decimal_reads_back(0);
    lemma_bounds(b, e, zero);
    lemma_stepped_unmarked(b, e, zero);
    lemma_one_range(head, stepped(b, e, zero), tail);
    lemma_one_range(head, unstepped(b, e), tail);
}

/// A range of letters that goes backwards is an error.
pub proof fn law_letters_go_forward(head: Seq<char>, a: int, b: int, tail: Seq<char>)
    requires
        unmarked(head),
        !tail.contains('['),
        0 <= b < a < letters().len(),
    ensures
        expanded(ranged(head, unstepped(seq![letters()[a]], seq![letters()[b]]), tail)) is Err,
{
    lemma_letters(0);
    lemma_letters(a);
    lemma_letters(b);
    let (p, q, zero) = (seq![letters()[a]], seq![letters()[b]], seq!['0']);
    assert(p[0] == letters()[a] && q[0] == letters()[b]);
    assert(zero[0] == '0');
    lemma_bounds(p, q, zero);
    lemma_stepped_unmarked(p, q, zero);
    lemma_one_range(head, unstepped(p, q), tail);
}

} // verus!
