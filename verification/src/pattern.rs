//! Host patterns for `--limit`: names, shell globs, and regular expressions behind a `~`.
//!
//! Patterns are separated by commas or colons. Plain ones select hosts, then those behind
//! an `&` keep only what they match, then those behind a `!` take away what they match.

use vstd::prelude::*;
use crate::assoc::Name;
use crate::hostrange::open_brackets;
use crate::model::{lemma_filter_names, lemma_push_set, lemma_with_name, lemma_with_names, with_name, with_names, InvView, InventoryData};
use crate::nameset::NameSet;
use crate::regexes::{begins, escape, from_start, is_match, is_plain_text, parts_match, parts_text, regex_escaped, regex_found, whole, Part};
use crate::text::{chars_of, find_char, find_from, is_digit, is_letter, is_space, join3, lemma_find_char, lemma_find_char_unique, lemma_names_push, lemma_trim, list_has, names, split, split_text, text_of_char, text_span, trim, trim_text};

verus! {

// ---------------------------------------------------------------------------------------
// Splitting
// ---------------------------------------------------------------------------------------

/// The pieces of `s` from `p` on, cut at colons outside of brackets; `cur` is the piece
/// that has begun, `depth` how many brackets are open.
pub open spec fn colon_pieces(s: Seq<char>, p: int, cur: Seq<char>, depth: int) -> Seq<Seq<char>>
    decreases s.len() - p,
{
    if p < 0 || p >= s.len() {
        seq![cur]
    } else if s[p] == ':' && depth == 0 {
        seq![cur] + colon_pieces(s, p + 1, Seq::empty(), depth)
    } else {
        let d = if s[p] == '[' {
            depth + 1
        } else if s[p] == ']' {
            depth - 1
        } else {
            depth
        };
        colon_pieces(s, p + 1, cur.push(s[p]), d)
    }
}

/// The pieces that are not blank, trimmed.
pub open spec fn trimmed(ps: Seq<Seq<char>>) -> Seq<Seq<char>>
    decreases ps.len(),
{
    if ps.len() == 0 {
        Seq::empty()
    } else if trim(ps.last()).len() == 0 {
        trimmed(ps.drop_last())
    } else {
        trimmed(ps.drop_last()).push(trim(ps.last()))
    }
}

/// The patterns of a limit. Where there is a comma, commas separate; else colons do,
/// outside of brackets.
pub open spec fn patterns(s: Seq<char>) -> Seq<Seq<char>> {
    trimmed(
        if s.contains(',') {
            split(s, ',')
        } else {
            colon_pieces(s, 0, Seq::empty(), 0)
        },
    )
}

/// Cuts at colons outside of brackets.
fn split_colons(s: &str) -> (r: Vec<String>)
    ensures
        names(r@) == colon_pieces(s@, 0, Seq::empty(), 0),
{
    let cs = chars_of(s);
    let mut parts: Vec<String> = Vec::new();
    let mut cur = String::new();
    let mut depth: i128 = 0;
    let mut i: usize = 0;
    assert(cur@ =~= Seq::<char>::empty());
    assert(names(parts@) + colon_pieces(s@, 0, Seq::empty(), 0) =~= colon_pieces(
        s@,
        0,
        Seq::empty(),
        0,
    ));
    while i < cs.len()
        invariant
            cs@ == s@,
            i <= cs.len(),
            -(i as int) <= depth <= i,
            names(parts@) + colon_pieces(s@, i as int, cur@, depth as int) == colon_pieces(
                s@,
                0,
                Seq::empty(),
                0,
            ),
        decreases cs.len() - i,
    {
        let c = cs[i];
        if c == ':' && depth == 0 {
            let ghost before = names(parts@);
            proof {
                lemma_names_push(parts@, cur);
                let rest = colon_pieces(s@, i + 1, Seq::empty(), 0);
                assert(before + (seq![cur@] + rest) =~= before.push(cur@) + rest);
            }
            parts.push(cur);
            cur = String::new();
            assert(cur@ =~= Seq::<char>::empty());
        } else {
            if c == '[' {
                depth = depth + 1;
            } else if c == ']' {
                depth = depth - 1;
            }
            cur.push(c);
        }
        i += 1;
    }
    proof {
        lemma_names_push(parts@, cur);
        assert(names(parts@) + seq![cur@] =~= names(parts@).push(cur@));
    }
    parts.push(cur);
    parts
}

/// Splits a limit into its patterns.
pub fn split_host_pattern(pattern: &str) -> (r: Vec<String>)
    ensures
        names(r@) == patterns(pattern@),
{
    let cs = chars_of(pattern);
    let comma = find_from(&cs, 0, ',');
    proof {
        assert(cs@.skip(0) =~= cs@);
        lemma_find_char(pattern@, ',');
    }
    let raw = if comma < cs.len() {
        split_text(pattern, ',')
    } else {
        split_colons(pattern)
    };
    let ghost ps = names(raw@);
    let mut out: Vec<String> = Vec::new();
    let mut i: usize = 0;
    assert(names(out@) =~= Seq::empty());
    while i < raw.len()
        invariant
            i <= raw.len(),
            ps == names(raw@),
            names(out@) == trimmed(ps.take(i as int)),
        decreases raw.len() - i,
    {
        proof {
            assert(ps[i as int] == raw@[i as int]@);
            assert(ps.take(i + 1).drop_last() =~= ps.take(i as int));
            assert(ps.take(i + 1).last() == ps[i as int]);
        }
        let t = trim_text(raw[i].as_str());
        if !t.as_str().is_empty() {
            proof {
                lemma_names_push(out@, t);
            }
            out.push(t);
        }
        i += 1;
    }
    assert(ps.take(i as int) =~= ps);
    out
}

// ---------------------------------------------------------------------------------------
// One pattern
// ---------------------------------------------------------------------------------------

/// Where the bracket expression that starts at `i` ends: at the first `]` that is not its
/// first member; the length where there is none.
pub open spec fn class_end(s: Seq<char>, i: int) -> int {
    let a = if i + 1 < s.len() && s[i + 1] == '!' {
        i + 2
    } else {
        i + 1
    };
    let b = if a < s.len() && s[a] == ']' {
        a + 1
    } else {
        a
    };
    b + find_char(s.skip(b), ']')
}

/// A member of a bracket expression that would mean something else to a regular expression:
/// what starts a class, a negation, an operator or an escape, and a hyphen that is no range.
pub open spec fn is_special_member(c: Seq<char>, k: int) -> bool {
    ||| c[k] == '\\'
    ||| c[k] == '['
    ||| c[k] == '^'
    ||| c[k] == '&'
    ||| c[k] == '~'
    ||| c[k] == '-' && (k == 0 || k == c.len() - 1 || (k > 1 && c[k - 1] == '-'))
}

/// The members of a bracket expression from `k` on, each standing for itself but for the
/// hyphens of ranges.
pub open spec fn members_from(c: Seq<char>, k: int) -> Seq<char>
    decreases c.len() - k,
{
    if k < 0 || k >= c.len() {
        Seq::empty()
    } else if is_special_member(c, k) {
        seq!['\\', c[k]] + members_from(c, k + 1)
    } else {
        seq![c[k]] + members_from(c, k + 1)
    }
}

/// The members of a bracket expression, with `!` for a negation written `^`.
pub open spec fn class_text(c: Seq<char>) -> Seq<char> {
    if c.len() > 0 && c[0] == '!' {
        seq!['^'] + members_from(c.drop_first(), 0)
    } else {
        members_from(c, 0)
    }
}

/// A glob from `i` on as a regular expression.
pub open spec fn glob_from(s: Seq<char>, i: int) -> Seq<char>
    decreases s.len() - i,
    when 0 <= i <= s.len() via glob_ends
{
    if i >= s.len() {
        Seq::empty()
    } else if s[i] == '*' {
        seq!['.', '*'] + glob_from(s, i + 1)
    } else if s[i] == '?' {
        seq!['.'] + glob_from(s, i + 1)
    } else if s[i] == '[' {
        let j = class_end(s, i);
        if j < s.len() {
            seq!['['] + class_text(s.subrange(i + 1, j)) + seq![']'] + glob_from(s, j + 1)
        } else {
            seq!['\\', '['] + glob_from(s, i + 1)
        }
    } else {
        regex_escaped(seq![s[i]]) + glob_from(s, i + 1)
    }
}

proof fn lemma_class_end(s: Seq<char>, i: int)
    requires
        0 <= i < s.len(),
    ensures
        i < class_end(s, i) <= s.len(),
{
    let a = if i + 1 < s.len() && s[i + 1] == '!' {
        i + 2
    } else {
        i + 1
    };
    let b = if a < s.len() && s[a] == ']' {
        a + 1
    } else {
        a
    };
    lemma_find_char(s.skip(b), ']');
}

#[via_fn]
proof fn glob_ends(s: Seq<char>, i: int) {
    if i < s.len() {
        lemma_class_end(s, i);
    }
}

/// A glob as a regular expression for the whole name.
pub open spec fn glob_regex(s: Seq<char>) -> Seq<char> {
    "(?s)^"@ + glob_from(s, 0) + seq!['$']
}

/// Where a bracket expression ends.
fn find_class_end(cs: &Vec<char>, i: usize) -> (r: usize)
    requires
        i < cs.len(),
    ensures
        r == class_end(cs@, i as int),
        i < r <= cs.len(),
{
    let a: usize = if i + 1 < cs.len() && cs[i + 1] == '!' {
        i + 2
    } else {
        i + 1
    };
    let b: usize = if a < cs.len() && cs[a] == ']' {
        a + 1
    } else {
        a
    };
    find_from(cs, b, ']')
}

/// Writes members of a bracket expression.
fn write_members(out: &mut String, c: &Vec<char>)
    ensures
        final(out)@ == old(out)@ + members_from(c@, 0),
{
    let ghost start = out@;
    let mut k: usize = 0;
    while k < c.len()
        invariant
            k <= c.len(),
            out@ + members_from(c@, k as int) == start + members_from(c@, 0),
        decreases c.len() - k,
    {
        let ghost before = out@;
        let m = c[k];
        let special = m == '\\' || m == '[' || m == '^' || m == '&' || m == '~' || (m == '-' && (k
            == 0 || k == c.len() - 1 || (k > 1 && c[k - 1] == '-')));
        if special {
            out.push('\\');
        }
        out.push(m);
        k += 1;
        proof {
            let rest = members_from(c@, k as int);
            if special {
                assert(before + (seq!['\\', m] + rest) =~= out@ + rest);
            } else {
                assert(before + (seq![m] + rest) =~= out@ + rest);
            }
        }
    }
    assert(out@ + Seq::<char>::empty() =~= out@);
}

/// The members of a bracket expression.
fn class_of(cs: &Vec<char>, i: usize, j: usize) -> (r: String)
    requires
        i < j <= cs.len(),
    ensures
        r@ == class_text(cs@.subrange(i + 1, j as int)),
{
    let ghost class = cs@.subrange(i + 1, j as int);
    let mut out = String::new();
    let negated = i + 1 < j && cs[i + 1] == '!';
    let from: usize = if negated {
        i + 2
    } else {
        i + 1
    };
    if negated {
        out.push('^');
    }
    let text = text_span(cs, from, j);
    let members = chars_of(text.as_str());
    write_members(&mut out, &members);
    proof {
        if negated {
            assert(class[0] == '!');
            assert(members@ =~= class.drop_first());
            assert(out@ =~= class_text(class));
        } else {
            assert(class.len() > 0 ==> class[0] == cs@[i + 1]);
            assert(members@ =~= class);
            assert(out@ =~= class_text(class));
        }
    }
    out
}

/// Translates a glob.
pub fn glob_to_regex(glob: &str) -> (r: String)
    ensures
        r@ == glob_regex(glob@),
{
    let cs = chars_of(glob);
    let ghost s = glob@;
    let mut out = "(?s)^".to_owned();
    let ghost head = out@;
    let mut i: usize = 0;
    while i < cs.len()
        invariant
            cs@ == s,
            i <= cs.len(),
            out@ + glob_from(s, i as int) == head + glob_from(s, 0),
        decreases cs.len() - i,
    {
        let ghost before = out@;
        let c = cs[i];
        if c == '*' {
            out.push('.');
            out.push('*');
            i += 1;
            let ghost rest = glob_from(s, i as int);
            assert(before + (seq!['.', '*'] + rest) =~= out@ + rest);
        } else if c == '?' {
            out.push('.');
            i += 1;
            let ghost rest = glob_from(s, i as int);
            assert(before + (seq!['.'] + rest) =~= out@ + rest);
        } else if c == '[' {
            let j = find_class_end(&cs, i);
            if j < cs.len() {
                let class = class_of(&cs, i, j);
                out.push('[');
                out.append(class.as_str());
                out.push(']');
                let ghost rest = glob_from(s, j + 1);
                assert(before + (seq!['['] + class@ + seq![']'] + rest) =~= out@ + rest);
                i = j + 1;
            } else {
                out.push('\\');
                out.push('[');
                i += 1;
                let ghost rest = glob_from(s, i as int);
                assert(before + (seq!['\\', '['] + rest) =~= out@ + rest);
            }
        } else {
            let one = text_of_char(c);
            let safe = escape(one.as_str());
            out.append(safe.as_str());
            i += 1;
            let ghost rest = glob_from(s, i as int);
            assert(before + (safe@ + rest) =~= out@ + rest);
        }
    }
    assert(out@ + Seq::<char>::empty() =~= out@);
    out.push('$');
    assert(out@ =~= head + glob_from(s, 0) + seq!['$']);
    out
}

/// A pattern without its `&` or `!`.
pub open spec fn bare(p: Seq<char>) -> Seq<char> {
    if p.len() > 0 && (p[0] == '&' || p[0] == '!') {
        p.drop_first()
    } else {
        p
    }
}

/// The regular expression of a bare pattern: what stands behind a `~`, from the start of a
/// name, or the translated glob.
pub open spec fn regex_of(p: Seq<char>) -> Seq<char> {
    if p.len() > 0 && p[0] == '~' {
        "(?s)^(?:"@ + p.drop_first() + ")"@
    } else {
        glob_regex(p)
    }
}

/// A bare pattern matches a name. A pattern that is no regular expression matches nothing.
pub open spec fn matches_name(p: Seq<char>, n: Name) -> bool {
    regex_found(regex_of(p), n) == Some(true)
}

/// A bare pattern that always looks at host names too.
pub open spec fn is_glob(p: Seq<char>) -> bool {
    (p.len() > 0 && p[0] == '~') || p.contains('.') || p.contains('?') || p.contains('*')
        || p.contains('[')
}

/// Which of some names a bare pattern matches.
pub open spec fn hits(p: Seq<char>, ns: Seq<Name>) -> Seq<bool> {
    Seq::new(ns.len(), |k: int| matches_name(p, ns[k]))
}

/// The hosts of those of the first `n` groups that were hit, each once.
pub open spec fn hosts_of_hits(i: InvView, gs: Seq<Name>, hit: Seq<bool>, n: nat) -> Seq<Name>
    decreases n,
{
    if n == 0 || n > gs.len() {
        Seq::empty()
    } else if hit[n - 1] {
        with_names(hosts_of_hits(i, gs, hit, (n - 1) as nat), i.group_all_hosts(gs[n - 1]))
    } else {
        hosts_of_hits(i, gs, hit, (n - 1) as nat)
    }
}

/// Those of the first `n` names that were hit.
pub open spec fn names_hit(ns: Seq<Name>, hit: Seq<bool>, n: nat) -> Seq<Name>
    decreases n,
{
    if n == 0 || n > ns.len() {
        Seq::empty()
    } else if hit[n - 1] {
        names_hit(ns, hit, (n - 1) as nat).push(ns[n - 1])
    } else {
        names_hit(ns, hit, (n - 1) as nat)
    }
}

/// The hosts that a bare pattern matches, given which groups and hosts it hits: those of
/// the groups, and the hosts where no group was hit or the pattern is a glob or a regular
/// expression.
pub open spec fn matched_by(i: InvView, p: Seq<char>, groups: Seq<bool>, hosts: Seq<bool>) -> Seq<Name> {
    let from_groups = hosts_of_hits(i, i.group_order, groups, i.group_order.len());
    if !groups.contains(true) || is_glob(p) {
        with_names(from_groups, names_hit(i.host_order, hosts, i.host_order.len()))
    } else {
        from_groups
    }
}

/// The hosts that a pattern matches.
pub open spec fn matched(i: InvView, pattern: Seq<char>) -> Seq<Name> {
    let p = bare(pattern);
    matched_by(i, p, hits(p, i.group_order), hits(p, i.host_order))
}

/// A character of a glob: `*` is any number of characters, `?` any one, and every other
/// character is itself.
pub open spec fn glob_part(c: char) -> Part {
    if c == '*' {
        Part::Many
    } else if c == '?' {
        Part::One
    } else {
        Part::Lit(c)
    }
}

/// The parts of a glob without bracket expressions.
pub open spec fn glob_parts(s: Seq<char>) -> Seq<Part> {
    Seq::new(s.len(), |k: int| glob_part(s[k]))
}

/// A bare pattern whose meaning is plain: letters and digits behind a `~`, or a glob without
/// bracket expressions.
pub open spec fn is_simple(p: Seq<char>) -> bool {
    p.len() <= 1000 && if p.len() > 0 && p[0] == '~' {
        is_plain_text(p.drop_first())
    } else {
        !p.contains('[')
    }
}

/// What such a pattern is for: behind a `~` stands what a name starts with; a glob is the
/// whole name.
pub open spec fn fits_name(p: Seq<char>, n: Name) -> bool {
    if p.len() > 0 && p[0] == '~' {
        begins(n, p.drop_first())
    } else {
        parts_match(glob_parts(p), n)
    }
}

/// The hosts that such a pattern picks: those of every group that it fits, and, where it fits
/// no group or is a glob or a regular expression, every host that it fits.
pub open spec fn picked(i: InvView, p: Seq<char>, h: Name) -> bool {
    ||| exists|g: Name| #[trigger]
        i.groups.dom().contains(g) && fits_name(p, g) && i.group_all_hosts(g).contains(h)
    ||| i.hosts.dom().contains(h) && fits_name(p, h) && (is_glob(p) || forall|g: Name| #[trigger]
        i.groups.dom().contains(g) ==> !fits_name(p, g))
}

/// A pattern whose meaning is plain matches what it picks.
pub open spec fn known(i: InvView, pattern: Seq<char>) -> bool {
    is_simple(bare(pattern)) ==> forall|h: Name| #[trigger]
        matched(i, pattern).contains(h) <==> picked(i, bare(pattern), h)
}

proof fn lemma_glob_parts(s: Seq<char>, i: int)
    requires
        0 <= i <= s.len(),
        !s.contains('['),
    ensures
        glob_from(s, i) == parts_text(glob_parts(s).skip(i)),
    decreases s.len() - i,
{
    let ps = glob_parts(s).skip(i);
    if i < s.len() {
        assert(s.contains(s[i]));
        lemma_glob_parts(s, i + 1);
        assert(ps.drop_first() =~= glob_parts(s).skip(i + 1));
        assert(ps[0] == glob_parts(s)[i]);
    }
}

/// A glob without bracket expressions is the regular expression of its parts.
pub proof fn law_glob_text(s: Seq<char>)
    requires
        !s.contains('['),
    ensures
        glob_regex(s) == whole(glob_parts(s)),
{
    lemma_glob_parts(s, 0);
    assert(glob_parts(s).skip(0) =~= glob_parts(s));
}

/// Members of a bracket expression that mean to a regular expression what they mean here:
/// letters and digits, and hyphens between them.
pub open spec fn plain_members(c: Seq<char>) -> bool {
    &&& c.len() > 0
    &&& forall|k: int|
        0 <= k < c.len() ==> is_letter(#[trigger] c[k]) || is_digit(c[k]) || (c[k] == '-' && 0 < k
            && k < c.len() - 1 && c[k - 1] != '-')
}

proof fn lemma_plain_members(c: Seq<char>, k: int)
    requires
        plain_members(c),
        0 <= k <= c.len(),
    ensures
        members_from(c, k) == c.skip(k),
    decreases c.len() - k,
{
    if k < c.len() {
        assert(is_letter(c[k]) || is_digit(c[k]) || (c[k] == '-' && 0 < k && k < c.len() - 1 && c[k
            - 1] != '-'));
        assert(!is_special_member(c, k));
        lemma_plain_members(c, k + 1);
        assert(seq![c[k]] + c.skip(k + 1) =~= c.skip(k));
    } else {
        assert(c.skip(k) =~= Seq::empty());
    }
}

/// A glob from a position on is the glob of what stands there.
proof fn lemma_glob_skip(s: Seq<char>, i: int, k: int)
    requires
        0 <= i,
        0 <= k,
        i + k <= s.len(),
    ensures
        glob_from(s, i + k) == glob_from(s.skip(i), k),
    decreases s.len() - i - k,
{
    let r = s.skip(i);
    let p = i + k;
    if p < s.len() {
        assert(r[k] == s[p]);
        if s[p] == '[' {
            let j = class_end(s, p);
            lemma_class_end(s, p);
            lemma_class_end(r, k);
            if p + 1 < s.len() {
                assert(r[k + 1] == s[p + 1]);
            }
            if p + 2 < s.len() {
                assert(r[k + 2] == s[p + 2]);
            }
            assert(r.skip(k + 1) =~= s.skip(p + 1));
            if p + 2 <= s.len() {
                assert(r.skip(k + 2) =~= s.skip(p + 2));
            }
            if p + 3 <= s.len() {
                assert(r.skip(k + 3) =~= s.skip(p + 3));
            }
            assert(class_end(r, k) == j - i);
            if j < s.len() {
                assert(s.subrange(p + 1, j) =~= r.subrange(k + 1, j - i));
                lemma_glob_skip(s, i, j + 1 - i);
            } else {
                lemma_glob_skip(s, i, k + 1);
            }
        } else {
            lemma_glob_skip(s, i, k + 1);
        }
    }
}

/// A bracket expression of letters, digits and ranges of them is one of the regular
/// expression, with `^` for a `!` at its front; what follows it is the glob that follows. A
/// bracket that is not closed stands for itself.
pub proof fn law_bracket_expressions(c: Seq<char>, b: Seq<char>)
    requires
        plain_members(c),
    ensures
        glob_from(seq!['['] + c + seq![']'] + b, 0) == seq!['['] + c + seq![']'] + glob_from(b, 0),
        glob_from(seq!['[', '!'] + c + seq![']'] + b, 0) == seq!['[', '^'] + c + seq![']']
            + glob_from(b, 0),
        !b.contains(']') ==> glob_from(seq!['['] + b, 0) == seq!['\\', '['] + glob_from(b, 0),
{
    let n = c.len() as int;
    lemma_plain_members(c, 0);
    assert(c.skip(0) =~= c);
    assert forall|k: int| 0 <= k < n implies #[trigger] c[k] != ']' && c[k] != '!' by {
        assert(is_letter(c[k]) || is_digit(c[k]) || c[k] == '-');
    }
    let x = seq!['['] + c + seq![']'] + b;
    assert(x[1] == c[0]);
    assert(x.skip(1) =~= c + seq![']'] + b);
    assert forall|k: int| 0 <= k < n implies #[trigger] x.skip(1)[k] != ']' by {
        assert(x.skip(1)[k] == c[k]);
    }
    assert(x.skip(1)[n] == ']');
    lemma_find_char_unique(x.skip(1), ']', n);
    assert(class_end(x, 0) == 1 + n);
    assert(x.subrange(1, 1 + n) =~= c);
    assert(c[0] != '!');
    assert(class_text(c) == c);
    lemma_glob_skip(x, 2 + n, 0);
    assert(x.skip(2 + n) =~= b);
    let y = seq!['[', '!'] + c + seq![']'] + b;
    assert(y[1] == '!' && y[2] == c[0]);
    assert forall|k: int| 0 <= k < n implies #[trigger] y.skip(2)[k] != ']' by {
        assert(y.skip(2)[k] == c[k]);
    }
    assert(y.skip(2)[n] == ']');
    lemma_find_char_unique(y.skip(2), ']', n);
    assert(class_end(y, 0) == 2 + n);
    let d = y.subrange(1, 2 + n);
    assert(d[0] == '!');
    assert(d.drop_first() =~= c);
    assert(class_text(d) == seq!['^'] + c);
    lemma_glob_skip(y, 3 + n, 0);
    assert(y.skip(3 + n) =~= b);
    assert(seq!['['] + (seq!['^'] + c) + seq![']'] + glob_from(b, 0) =~= seq!['[', '^'] + c + seq![
        ']',
    ] + glob_from(b, 0));
    if !b.contains(']') {
        let z = seq!['['] + b;
        lemma_class_end(z, 0);
        let j = class_end(z, 0);
        if j < z.len() {
            lemma_find_char(z.skip(1), ']');
            if z.len() >= 2 {
                lemma_find_char(z.skip(2), ']');
            }
            if z.len() >= 3 {
                lemma_find_char(z.skip(3), ']');
            }
            assert(z[j] == ']');
            assert(b[j - 1] == ']');
            assert(b.contains(']'));
        }
        lemma_glob_skip(z, 1, 0);
        assert(z.skip(1) =~= b);
    }
}

/// The regular expression of a bare pattern.
fn compile(p: &str) -> (r: String)
    ensures
        r@ == regex_of(p@),
{
    let cs = chars_of(p);
    if cs.len() > 0 && cs[0] == '~' {
        let rest = text_span(&cs, 1, cs.len());
        assert(rest@ =~= p@.drop_first());
        join3("(?s)^(?:", rest.as_str(), ")")
    } else {
        glob_to_regex(p)
    }
}

/// Whether the regular expression of a bare pattern matches a name.
fn regex_matches(re: &str, n: &str, Ghost(p): Ghost<Seq<char>>) -> (r: bool)
    requires
        re@ == regex_of(p),
    ensures
        r == (regex_found(re@, n@) == Some(true)),
        is_simple(p) ==> r == fits_name(p, n@),
{
    proof {
        if is_simple(p) {
            if p.len() > 0 && p[0] == '~' {
                assert(re@ == from_start(p.drop_first()));
            } else {
                law_glob_text(p);
                assert(re@ == whole(glob_parts(p)));
            }
        }
    }
    match is_match(re, n) {
        Some(b) => b,
        None => false,
    }
}

/// Whether a character stands in a text.
fn has_char(cs: &Vec<char>, c: char) -> (r: bool)
    ensures
        r == cs@.contains(c),
{
    let i = find_from(cs, 0, c);
    proof {
        assert(cs@.skip(0) =~= cs@);
        lemma_find_char(cs@, c);
    }
    i < cs.len()
}

/// Adds names to a list that lacks them.
fn add_names(out: &mut Vec<String>, seen: &mut NameSet, more: &Vec<String>)
    requires
        old(seen)@ == names(old(out)@).to_set(),
    ensures
        names(final(out)@) == with_names(names(old(out)@), names(more@)),
        final(seen)@ == names(final(out)@).to_set(),
{
    let ghost before = names(out@);
    let ghost ms = names(more@);
    let mut i: usize = 0;
    assert(ms.take(0) =~= Seq::empty());
    while i < more.len()
        invariant
            i <= more.len(),
            ms == names(more@),
            names(out@) == with_names(before, ms.take(i as int)),
            seen@ == names(out@).to_set(),
        decreases more.len() - i,
    {
        proof {
            assert(ms[i as int] == more@[i as int]@);
            assert(ms.take(i + 1).drop_last() =~= ms.take(i as int));
            lemma_push_set(names(out@), more@[i as int]@);
            lemma_names_push(out@, more@[i as int]);
        }
        if seen.insert(more[i].clone()) {
            out.push(more[i].clone());
        } else {
            assert(seen@ =~= names(out@).to_set());
        }
        i += 1;
    }
    assert(ms.take(i as int) =~= ms);
}

/// Which of some names a regular expression matches.
fn find_hits(re: &str, ns: &Vec<String>, Ghost(p): Ghost<Seq<char>>) -> (r: Vec<bool>)
    requires
        re@ == regex_of(p),
    ensures
        r@ == hits(p, names(ns@)),
        is_simple(p) ==> forall|k: int|
            0 <= k < ns@.len() ==> r@[k] == fits_name(p, #[trigger] names(ns@)[k]),
{
    let mut out: Vec<bool> = Vec::new();
    let mut i: usize = 0;
    while i < ns.len()
        invariant
            i <= ns.len(),
            re@ == regex_of(p),
            out@ =~= hits(p, names(ns@)).take(i as int),
            is_simple(p) ==> forall|k: int|
                0 <= k < i ==> out@[k] == fits_name(p, #[trigger] names(ns@)[k]),
        decreases ns.len() - i,
    {
        assert(names(ns@)[i as int] == ns@[i as int]@);
        out.push(regex_matches(re, ns[i].as_str(), Ghost(p)));
        i += 1;
    }
    assert(hits(p, names(ns@)).take(i as int) =~= hits(p, names(ns@)));
    out
}

/// The names that were hit.
fn pick_hits(ns: &Vec<String>, hit: &Vec<bool>) -> (r: Vec<String>)
    requires
        hit@.len() == ns@.len(),
    ensures
        names(r@) == names_hit(names(ns@), hit@, ns@.len()),
{
    let mut out: Vec<String> = Vec::new();
    let mut i: usize = 0;
    assert(names(out@) =~= Seq::empty());
    while i < ns.len()
        invariant
            i <= ns.len(),
            hit@.len() == ns@.len(),
            names(out@) == names_hit(names(ns@), hit@, i as nat),
        decreases ns.len() - i,
    {
        proof {
            assert(names(ns@)[i as int] == ns@[i as int]@);
            lemma_names_push(out@, ns@[i as int]);
        }
        if hit[i] {
            out.push(ns[i].clone());
        }
        i += 1;
    }
    out
}

/// The hosts that a bare pattern matches, given which groups and which hosts, in their
/// orders, it hits.
pub fn match_hits(inv: &InventoryData, p: &str, group_hits: &Vec<bool>, host_hits: &Vec<bool>) -> (r:
    Vec<String>)
    requires
        inv@.wf(),
        group_hits@.len() == inv@.group_order.len(),
        host_hits@.len() == inv@.host_order.len(),
    ensures
        names(r@) == matched_by(inv@, p@, group_hits@, host_hits@),
{
    let groups = inv.group_names();
    let ghost gs = names(groups@);
    let mut out: Vec<String> = Vec::new();
    let mut seen = NameSet::new();
    let mut any = false;
    let mut i: usize = 0;
    assert(names(out@) =~= Seq::empty());
    assert(seen@ =~= names(out@).to_set());
    while i < groups.len()
        invariant
            i <= groups.len(),
            inv@.wf(),
            gs == names(groups@),
            gs == inv@.group_order,
            group_hits@.len() == gs.len(),
            names(out@) == hosts_of_hits(inv@, gs, group_hits@, i as nat),
            seen@ == names(out@).to_set(),
            any == exists|k: int| 0 <= k < i && #[trigger] group_hits@[k],
        decreases groups.len() - i,
    {
        assert(gs[i as int] == groups@[i as int]@);
        if group_hits[i] {
            assert(group_hits@[i as int]);
            any = true;
            let hosts = inv.group_all_hosts(groups[i].as_str());
            add_names(&mut out, &mut seen, &hosts);
        }
        i += 1;
    }
    proof {
        if any {
            let k = choose|k: int| 0 <= k < i && #[trigger] group_hits@[k];
            assert(group_hits@[k] == true);
        }
        if group_hits@.contains(true) {
            let k = choose|k: int| 0 <= k < group_hits@.len() && group_hits@[k] == true;
            assert(group_hits@[k]);
        }
    }
    let cs = chars_of(p);
    let glob = (cs.len() > 0 && cs[0] == '~') || has_char(&cs, '.') || has_char(&cs, '?')
        || has_char(&cs, '*') || has_char(&cs, '[');
    if !any || glob {
        let all = inv.host_names();
        let hosts = pick_hits(&all, host_hits);
        add_names(&mut out, &mut seen, &hosts);
    }
    out
}

proof fn lemma_hosts_of_hits(i: InvView, gs: Seq<Name>, hit: Seq<bool>, n: nat, h: Name)
    requires
        hit.len() == gs.len(),
        n <= gs.len(),
    ensures
        hosts_of_hits(i, gs, hit, n).contains(h) <==> exists|k: int|
            0 <= k < n && hit[k] && i.group_all_hosts(#[trigger] gs[k]).contains(h),
    decreases n,
{
    if n > 0 {
        lemma_hosts_of_hits(i, gs, hit, (n - 1) as nat, h);
        let before = hosts_of_hits(i, gs, hit, (n - 1) as nat);
        lemma_with_names(before, i.group_all_hosts(gs[n - 1]));
        if hit[n - 1] && i.group_all_hosts(gs[n - 1]).contains(h) {
            assert(i.group_all_hosts(gs[n - 1]).contains(h));
        }
    }
}

proof fn lemma_names_hit(ns: Seq<Name>, hit: Seq<bool>, n: nat, h: Name)
    requires
        hit.len() == ns.len(),
        n <= ns.len(),
    ensures
        names_hit(ns, hit, n).contains(h) <==> exists|k: int|
            0 <= k < n && hit[k] && #[trigger] ns[k] == h,
    decreases n,
{
    if n > 0 {
        lemma_names_hit(ns, hit, (n - 1) as nat, h);
        let before = names_hit(ns, hit, (n - 1) as nat);
        if hit[n - 1] {
            let now = before.push(ns[n - 1]);
            if now.contains(h) {
                let k = choose|k: int| 0 <= k < now.len() && now[k] == h;
                if k < before.len() {
                    assert(before[k] == h);
                    assert(before.contains(h));
                } else {
                    assert(ns[n - 1] == h);
                }
            }
            if before.contains(h) {
                let k = choose|k: int| 0 <= k < before.len() && before[k] == h;
                assert(now[k] == h);
            }
            if ns[n - 1] == h {
                assert(now[before.len() as int] == h);
            }
        }
    }
}

/// Where a pattern hits the names that it fits, it matches the hosts that it picks.
proof fn lemma_known(i: InvView, pattern: Seq<char>)
    requires
        i.wf(),
        forall|k: int|
            0 <= k < i.group_order.len() ==> matches_name(
                bare(pattern),
                #[trigger] i.group_order[k],
            ) == fits_name(bare(pattern), i.group_order[k]),
        forall|k: int|
            0 <= k < i.host_order.len() ==> matches_name(bare(pattern), #[trigger] i.host_order[k])
                == fits_name(bare(pattern), i.host_order[k]),
    ensures
        known(i, pattern),
{
    let p = bare(pattern);
    let (gs, hs) = (i.group_order, i.host_order);
    let (a, b) = (hits(p, gs), hits(p, hs));
    let from_groups = hosts_of_hits(i, gs, a, gs.len());
    let own = names_hit(hs, b, hs.len());
    lemma_with_names(from_groups, own);
    assert(a.contains(true) <==> exists|g: Name| #[trigger]
        i.groups.dom().contains(g) && fits_name(p, g)) by {
        if a.contains(true) {
            let k = choose|k: int| 0 <= k < a.len() && a[k] == true;
            assert(matches_name(p, gs[k]));
            assert(gs.contains(gs[k]));
            assert(i.groups.dom().contains(gs[k]));
        }
        if exists|g: Name| #[trigger] i.groups.dom().contains(g) && fits_name(p, g) {
            let g = choose|g: Name| #[trigger] i.groups.dom().contains(g) && fits_name(p, g);
            assert(gs.contains(g));
            let k = choose|k: int| 0 <= k < gs.len() && gs[k] == g;
            assert(matches_name(p, gs[k]));
            assert(a[k] == true);
        }
    }
    assert forall|h: Name| #[trigger] matched(i, pattern).contains(h) <==> picked(i, p, h) by {
        lemma_hosts_of_hits(i, gs, a, gs.len(), h);
        lemma_names_hit(hs, b, hs.len(), h);
        if from_groups.contains(h) {
            let k = choose|k: int|
                0 <= k < gs.len() && a[k] && i.group_all_hosts(#[trigger] gs[k]).contains(h);
            assert(matches_name(p, gs[k]));
            assert(gs.contains(gs[k]));
            assert(i.groups.dom().contains(gs[k]));
        }
        if exists|g: Name| #[trigger]
            i.groups.dom().contains(g) && fits_name(p, g) && i.group_all_hosts(g).contains(h) {
            let g = choose|g: Name| #[trigger]
                i.groups.dom().contains(g) && fits_name(p, g) && i.group_all_hosts(g).contains(h);
            assert(gs.contains(g));
            let k = choose|k: int| 0 <= k < gs.len() && gs[k] == g;
            assert(matches_name(p, gs[k]));
            assert(a[k]);
            assert(i.group_all_hosts(gs[k]).contains(h));
        }
        if own.contains(h) {
            let k = choose|k: int| 0 <= k < hs.len() && b[k] && #[trigger] hs[k] == h;
            assert(matches_name(p, hs[k]));
            assert(hs.contains(hs[k]));
        }
        if i.hosts.dom().contains(h) && fits_name(p, h) {
            assert(hs.contains(h));
            let k = choose|k: int| 0 <= k < hs.len() && hs[k] == h;
            assert(matches_name(p, hs[k]));
            assert(b[k]);
        }
    }
}

/// The hosts that a pattern matches.
fn match_one_pattern(inv: &InventoryData, pattern: &str) -> (r: Vec<String>)
    requires
        inv@.wf(),
    ensures
        names(r@) == matched(inv@, pattern@),
        known(inv@, pattern@),
{
    let pcs = chars_of(pattern);
    let from: usize = if pcs.len() > 0 && (pcs[0] == '&' || pcs[0] == '!') {
        1
    } else {
        0
    };
    let p = text_span(&pcs, from, pcs.len());
    assert(p@ =~= bare(pattern@));
    let re = compile(p.as_str());
    let groups = inv.group_names();
    let hosts = inv.host_names();
    let group_hits = find_hits(re.as_str(), &groups, Ghost(p@));
    let host_hits = find_hits(re.as_str(), &hosts, Ghost(p@));
    proof {
        if is_simple(p@) {
            assert forall|k: int| 0 <= k < inv@.group_order.len() implies matches_name(
                p@,
                #[trigger] inv@.group_order[k],
            ) == fits_name(p@, inv@.group_order[k]) by {
                assert(group_hits@[k] == fits_name(p@, names(groups@)[k]));
                assert(hits(p@, names(groups@))[k] == group_hits@[k]);
            }
            assert forall|k: int| 0 <= k < inv@.host_order.len() implies matches_name(
                p@,
                #[trigger] inv@.host_order[k],
            ) == fits_name(p@, inv@.host_order[k]) by {
                assert(host_hits@[k] == fits_name(p@, names(hosts@)[k]));
                assert(hits(p@, names(hosts@))[k] == host_hits@[k]);
            }
            lemma_known(inv@, pattern@);
        }
    }
    match_hits(inv, p.as_str(), &group_hits, &host_hits)
}

// ---------------------------------------------------------------------------------------
// All patterns
// ---------------------------------------------------------------------------------------

/// A pattern of the kind that starts with `c`.
pub open spec fn starts_with(p: Seq<char>, c: char) -> bool {
    p.len() > 0 && p[0] == c
}

/// A pattern that selects.
pub open spec fn is_regular(p: Seq<char>) -> bool {
    p.len() > 0 && p[0] != '!' && p[0] != '&'
}

/// The patterns that select; `all` where there is none.
pub open spec fn regular(ps: Seq<Seq<char>>) -> Seq<Seq<char>> {
    let r = ps.filter(|p: Seq<char>| is_regular(p));
    if r.len() == 0 {
        seq!["all"@]
    } else {
        r
    }
}

/// The patterns in the order in which they apply.
pub open spec fn ordered(ps: Seq<Seq<char>>) -> Seq<Seq<char>> {
    regular(ps) + ps.filter(|p: Seq<char>| starts_with(p, '&')) + ps.filter(
        |p: Seq<char>| starts_with(p, '!'),
    )
}

/// The selected hosts after one pattern more, given the hosts that it matches. A pattern
/// that is a host's name stands for that host.
pub open spec fn narrowed(hosts: Seq<Name>, p: Seq<char>, is_host: bool, m: Seq<Name>) -> Seq<Name> {
    if is_host {
        with_name(hosts, p)
    } else if starts_with(p, '!') {
        hosts.filter(|h: Name| !m.contains(h))
    } else if starts_with(p, '&') {
        hosts.filter(|h: Name| m.contains(h))
    } else {
        hosts + m.filter(|h: Name| !hosts.contains(h))
    }
}

/// The selected hosts after one pattern more.
pub open spec fn select_one(i: InvView, hosts: Seq<Name>, p: Seq<char>) -> Seq<Name> {
    narrowed(hosts, p, i.hosts.dom().contains(p), matched(i, p))
}

/// The selected hosts after some patterns.
pub open spec fn select_all(i: InvView, ps: Seq<Seq<char>>) -> Seq<Name>
    decreases ps.len(),
{
    if ps.len() == 0 {
        Seq::empty()
    } else {
        select_one(i, select_all(i, ps.drop_last()), ps.last())
    }
}

/// The hosts that a limit selects.
pub open spec fn selected(i: InvView, limit: Seq<char>) -> Seq<Name> {
    select_all(i, ordered(patterns(limit)))
}

/// What kind a pattern is: '!' , '&', or anything else for one that selects.
fn lead(p: &str) -> (r: Option<char>)
    ensures
        r == (if p@.len() > 0 {
            Some(p@[0])
        } else {
            None
        }),
{
    let cs = chars_of(p);
    if cs.len() > 0 {
        Some(cs[0])
    } else {
        None
    }
}

/// The patterns in the order in which they apply.
fn order_patterns(patterns: &Vec<String>) -> (r: Vec<String>)
    ensures
        names(r@) == ordered(names(patterns@)),
{
    let ghost ps = names(patterns@);
    let ghost is_r = |p: Seq<char>| is_regular(p);
    let ghost is_i = |p: Seq<char>| starts_with(p, '&');
    let ghost is_e = |p: Seq<char>| starts_with(p, '!');
    let mut regular: Vec<String> = Vec::new();
    let mut intersection: Vec<String> = Vec::new();
    let mut exclude: Vec<String> = Vec::new();
    let mut i: usize = 0;
    assert(names(regular@) =~= Seq::empty());
    assert(ps.take(0).filter(is_r) =~= Seq::empty() && ps.take(0).filter(is_i) =~= Seq::empty()
        && ps.take(0).filter(is_e) =~= Seq::empty()) by {
        reveal(Seq::filter);
    }
    while i < patterns.len()
        invariant
            i <= patterns.len(),
            ps == names(patterns@),
            is_r == (|p: Seq<char>| is_regular(p)),
            is_i == (|p: Seq<char>| starts_with(p, '&')),
            is_e == (|p: Seq<char>| starts_with(p, '!')),
            names(regular@) == ps.take(i as int).filter(is_r),
            names(intersection@) == ps.take(i as int).filter(is_i),
            names(exclude@) == ps.take(i as int).filter(is_e),
        decreases patterns.len() - i,
    {
        let p = &patterns[i];
        proof {
            reveal(Seq::filter);
            assert(ps.take(i + 1).drop_last() =~= ps.take(i as int));
            assert(ps[i as int] == p@);
            lemma_names_push(regular@, *p);
            lemma_names_push(intersection@, *p);
            lemma_names_push(exclude@, *p);
        }
        match lead(p.as_str()) {
            Some(c) => if c == '!' {
                exclude.push(p.clone());
            } else if c == '&' {
                intersection.push(p.clone());
            } else {
                regular.push(p.clone());
            },
            None => {},
        }
        i += 1;
    }
    assert(ps.take(i as int) =~= ps);
    if regular.len() == 0 {
        regular.push("all".to_owned());
        assert(names(regular@) =~= seq!["all"@]);
    }
    let ghost (a, b, c) = (regular@, intersection@, exclude@);
    regular.append(&mut intersection);
    regular.append(&mut exclude);
    assert(names(regular@) =~= names(a) + names(b) + names(c));
    regular
}

/// Keeps the names that are, or are not, in a list.
fn keep_names(hosts: &Vec<String>, other: &Vec<String>, want: bool) -> (r: Vec<String>)
    ensures
        names(r@) == names(hosts@).filter(|h: Name| names(other@).contains(h) == want),
{
    let ghost pred = |h: Name| names(other@).contains(h) == want;
    let set = NameSet::of(other);
    let ghost src = names(hosts@);
    let mut out: Vec<String> = Vec::new();
    let mut i: usize = 0;
    assert(names(out@) =~= Seq::empty());
    assert(src.take(0).filter(pred) =~= Seq::empty()) by {
        reveal(Seq::filter);
    }
    while i < hosts.len()
        invariant
            i <= hosts.len(),
            src == names(hosts@),
            set@ == names(other@).to_set(),
            pred == (|h: Name| names(other@).contains(h) == want),
            names(out@) == src.take(i as int).filter(pred),
        decreases hosts.len() - i,
    {
        proof {
            reveal(Seq::filter);
            assert(src.take(i + 1).drop_last() =~= src.take(i as int));
            assert(src[i as int] == hosts@[i as int]@);
            lemma_names_push(out@, hosts@[i as int]);
        }
        if set.contains(hosts[i].as_str()) == want {
            out.push(hosts[i].clone());
        }
        i += 1;
    }
    assert(src.take(i as int) =~= src);
    out
}

/// Applies one pattern, given whether it is a host's name and the hosts that it matches.
pub fn narrow(hosts: Vec<String>, p: &str, is_host: bool, found: &Vec<String>) -> (r: Vec<String>)
    ensures
        names(r@) == narrowed(names(hosts@), p@, is_host, names(found@)),
{
    if is_host {
        let mut out = hosts;
        if !list_has(&out, p) {
            let own = p.to_owned();
            proof {
                lemma_names_push(out@, own);
            }
            out.push(own);
        }
        return out;
    }
    let ghost m = names(found@);
    let ghost hs = names(hosts@);
    let kind = lead(p);
    if kind == Some('!') {
        let out = keep_names(&hosts, found, false);
        proof {
            lemma_filter_same(hs, |h: Name| m.contains(h) == false, |h: Name| !m.contains(h));
        }
        return out;
    }
    if kind == Some('&') {
        let out = keep_names(&hosts, found, true);
        proof {
            lemma_filter_same(hs, |h: Name| m.contains(h) == true, |h: Name| m.contains(h));
        }
        return out;
    }
    let mut fresh = keep_names(found, &hosts, false);
    proof {
        lemma_filter_same(m, |h: Name| hs.contains(h) == false, |h: Name| !hs.contains(h));
    }
    let mut out = hosts;
    let ghost (a, b) = (out@, fresh@);
    out.append(&mut fresh);
    assert(names(out@) =~= names(a) + names(b));
    out
}

/// Applies one pattern.
fn apply_pattern(inv: &InventoryData, hosts: Vec<String>, p: &str) -> (r: Vec<String>)
    requires
        inv@.wf(),
    ensures
        names(r@) == select_one(inv@, names(hosts@), p@),
        known(inv@, p@),
{
    let is_host = inv.host(p).is_some();
    let found = match_one_pattern(inv, p);
    narrow(hosts, p, is_host, &found)
}

/// Two tests that agree keep the same.
proof fn lemma_filter_same(s: Seq<Name>, a: spec_fn(Name) -> bool, b: spec_fn(Name) -> bool)
    requires
        forall|x: Name| #[trigger] a(x) == b(x),
    ensures
        s.filter(a) == s.filter(b),
    decreases s.len(),
{
    reveal(Seq::filter);
    if s.len() > 0 {
        lemma_filter_same(s.drop_last(), a, b);
    }
}

/// Applies patterns in their order.
fn evaluate_patterns(inv: &InventoryData, patterns: &Vec<String>) -> (r: Vec<String>)
    requires
        inv@.wf(),
    ensures
        names(r@) == select_all(inv@, ordered(names(patterns@))),
        forall|k: int|
            0 <= k < ordered(names(patterns@)).len() ==> known(
                inv@,
                #[trigger] ordered(names(patterns@))[k],
            ),
{
    let order = order_patterns(patterns);
    let ghost ps = names(order@);
    let mut hosts: Vec<String> = Vec::new();
    let mut i: usize = 0;
    assert(names(hosts@) =~= Seq::empty());
    while i < order.len()
        invariant
            i <= order.len(),
            inv@.wf(),
            ps == names(order@),
            names(hosts@) == select_all(inv@, ps.take(i as int)),
            forall|k: int| 0 <= k < i ==> known(inv@, #[trigger] ps[k]),
        decreases order.len() - i,
    {
        proof {
            assert(ps[i as int] == order@[i as int]@);
            assert(ps.take(i + 1).drop_last() =~= ps.take(i as int));
            assert(ps.take(i + 1).last() == ps[i as int]);
        }
        hosts = apply_pattern(inv, hosts, order[i].as_str());
        i += 1;
    }
    assert(ps.take(i as int) =~= ps);
    hosts
}

/// Every pattern of a limit has a plain meaning.
pub open spec fn all_simple(limit: Seq<char>) -> bool {
    forall|p: Seq<char>| #[trigger] patterns(limit).contains(p) ==> is_simple(bare(p))
}

/// A pattern that selects stands for this host: it is the host's name, or it picks the host.
pub open spec fn picks(i: InvView, p: Seq<char>, h: Name) -> bool {
    if i.hosts.dom().contains(p) {
        h == p
    } else {
        picked(i, p, h)
    }
}

/// What a limit of patterns with plain meanings is for: it selects the hosts that one of its
/// patterns picks (or `all` does, where none selects), that every intersection picks, and
/// that no exclusion picks.
pub open spec fn wanted(i: InvView, limit: Seq<char>, h: Name) -> bool {
    let ps = patterns(limit);
    &&& exists|k: int| 0 <= k < regular(ps).len() && picks(i, #[trigger] regular(ps)[k], h)
    &&& forall|p: Seq<char>| #[trigger]
        ps.contains(p) && starts_with(p, '&') ==> picked(i, p.drop_first(), h)
    &&& forall|p: Seq<char>| #[trigger]
        ps.contains(p) && starts_with(p, '!') ==> !picked(i, p.drop_first(), h)
}

/// The hosts that a limit selects. Where every pattern of the limit is letters and digits
/// behind a `~`, or a glob without bracket expressions, those are the hosts that its patterns
/// are for; and a limit that is one such pattern and no host's name selects the hosts of the
/// groups whose names it fits, and the hosts whose names it fits.
pub fn select_hosts(inv: &InventoryData, limit: &str) -> (r: NameSet)
    requires
        inv@.wf(),
    ensures
        r@ == selected(inv@, limit@).to_set(),
        plain_hosts(inv@) && all_simple(limit@) ==> forall|h: Name| #[trigger]
            r@.contains(h) <==> wanted(inv@, limit@, h),
        plain_hosts(inv@) && is_token(limit@) && is_regular(limit@) && is_simple(limit@)
            ==> forall|h: Name| #[trigger] r@.contains(h) <==> picks(inv@, limit@, h),
{
    let ps = split_host_pattern(limit);
    let hosts = evaluate_patterns(inv, &ps);
    proof {
        lemma_wanted(inv@, limit@);
    }
    NameSet::of(&hosts)
}

// ---------------------------------------------------------------------------------------
// Laws
// ---------------------------------------------------------------------------------------

/// A pattern stands for a host: it is the host's name, or it matches the host.
pub open spec fn stands_for(i: InvView, p: Seq<char>, h: Name) -> bool {
    if i.hosts.dom().contains(p) {
        h == p
    } else {
        matched(i, p).contains(h)
    }
}

/// No host has a name that starts like an intersection or an exclusion.
pub open spec fn plain_hosts(i: InvView) -> bool {
    forall|h: Name| #[trigger]
        i.hosts.dom().contains(h) ==> !starts_with(h, '!') && !starts_with(h, '&')
}

/// What selecting patterns select.
proof fn lemma_select_regular(i: InvView, ps: Seq<Seq<char>>, h: Name)
    requires
        forall|k: int| 0 <= k < ps.len() ==> is_regular(#[trigger] ps[k]),
    ensures
        select_all(i, ps).contains(h) <==> exists|k: int|
            0 <= k < ps.len() && stands_for(i, #[trigger] ps[k], h),
    decreases ps.len(),
{
    if ps.len() > 0 {
        let u = ps.drop_last();
        let n = ps.len() - 1;
        let p = ps[n];
        assert forall|k: int| 0 <= k < u.len() implies is_regular(#[trigger] u[k]) by {
            assert(is_regular(ps[k]));
        }
        lemma_select_regular(i, u, h);
        assert(is_regular(ps[n]));
        let before = select_all(i, u);
        let m = matched(i, p);
        lemma_with_name(before, p);
        lemma_filter_names(m, |x: Name| !before.contains(x));
        let fresh = m.filter(|x: Name| !before.contains(x));
        assert((before + fresh).contains(h) <==> (before.contains(h) || fresh.contains(h))) by {
            if before.contains(h) {
                let k = choose|k: int| 0 <= k < before.len() && before[k] == h;
                assert((before + fresh)[k] == h);
            }
            if fresh.contains(h) {
                let k = choose|k: int| 0 <= k < fresh.len() && fresh[k] == h;
                assert((before + fresh)[before.len() + k] == h);
            }
            if (before + fresh).contains(h) {
                let k = choose|k: int|
                    0 <= k < (before + fresh).len() && (before + fresh)[k] == h;
                if k < before.len() {
                    assert(before[k] == h);
                } else {
                    assert(fresh[k - before.len()] == h);
                }
            }
        }
        if exists|k: int| 0 <= k < u.len() && stands_for(i, #[trigger] u[k], h) {
            let k = choose|k: int| 0 <= k < u.len() && stands_for(i, #[trigger] u[k], h);
            assert(stands_for(i, ps[k], h));
        }
        if exists|k: int| 0 <= k < ps.len() && stands_for(i, #[trigger] ps[k], h) {
            let k = choose|k: int| 0 <= k < ps.len() && stands_for(i, #[trigger] ps[k], h);
            if k < n {
                assert(stands_for(i, u[k], h));
            }
        }
        if stands_for(i, p, h) {
            assert(stands_for(i, ps[n], h));
        }
    }
}

/// What intersections and exclusions leave of a selection.
proof fn lemma_select_rest(i: InvView, r: Seq<Seq<char>>, rest: Seq<Seq<char>>, h: Name)
    requires
        plain_hosts(i),
        forall|k: int|
            0 <= k < rest.len() ==> starts_with(#[trigger] rest[k], '&') || starts_with(
                rest[k],
                '!',
            ),
    ensures
        select_all(i, r + rest).contains(h) <==> (select_all(i, r).contains(h) && forall|k: int|
            0 <= k < rest.len() ==> (matched(i, #[trigger] rest[k]).contains(h) <==> starts_with(
                rest[k],
                '&',
            ))),
    decreases rest.len(),
{
    if rest.len() == 0 {
        assert(r + rest =~= r);
    } else {
        let u = rest.drop_last();
        let n = rest.len() - 1;
        let p = rest[n];
        assert forall|k: int| 0 <= k < u.len() implies starts_with(#[trigger] u[k], '&')
            || starts_with(u[k], '!') by {
            assert(starts_with(rest[k], '&') || starts_with(rest[k], '!'));
        }
        lemma_select_rest(i, r, u, h);
        assert((r + rest).drop_last() =~= r + u);
        assert((r + rest).last() == p);
        let before = select_all(i, r + u);
        let m = matched(i, p);
        assert(starts_with(rest[n], '&') || starts_with(rest[n], '!'));
        assert(!i.hosts.dom().contains(p));
        lemma_filter_names(before, |x: Name| m.contains(x));
        lemma_filter_names(before, |x: Name| !m.contains(x));
        assert(forall|k: int| 0 <= k < u.len() ==> u[k] == #[trigger] rest[k]);
        if forall|k: int|
            0 <= k < u.len() ==> (matched(i, #[trigger] u[k]).contains(h) <==> starts_with(
                u[k],
                '&',
            )) {
            assert forall|k: int| 0 <= k < n implies (matched(i, #[trigger] rest[k]).contains(h)
                <==> starts_with(rest[k], '&')) by {
                assert(u[k] == rest[k]);
            }
        }
        if forall|k: int|
            0 <= k < rest.len() ==> (matched(i, #[trigger] rest[k]).contains(h) <==> starts_with(
                rest[k],
                '&',
            )) {
            assert(matched(i, rest[n]).contains(h) <==> starts_with(rest[n], '&'));
            assert forall|k: int| 0 <= k < u.len() implies (matched(i, #[trigger] u[k]).contains(h)
                <==> starts_with(u[k], '&')) by {
                assert(matched(i, rest[k]).contains(h) <==> starts_with(rest[k], '&'));
            }
        }
    }
}

/// What a filter of patterns keeps.
proof fn lemma_filter_patterns(ps: Seq<Seq<char>>, pred: spec_fn(Seq<char>) -> bool)
    ensures
        forall|x: Seq<char>| #[trigger] ps.filter(pred).contains(x) <==> (ps.contains(x) && pred(x)),
{
    lemma_filter_names(ps, pred);
}

/// A limit selects exactly the hosts that some plain pattern stands for (all hosts, where
/// there is no plain pattern), that every intersection matches, and that no exclusion
/// matches; the order of the patterns does not matter. (Where a host's name starts with
/// `!` or `&`, a pattern that is that name selects it instead.)
pub proof fn law_limit(i: InvView, limit: Seq<char>, h: Name)
    requires
        plain_hosts(i),
    ensures
        selected(i, limit).contains(h) <==> {
            let ps = patterns(limit);
            &&& exists|k: int|
                0 <= k < regular(ps).len() && stands_for(i, #[trigger] regular(ps)[k], h)
            &&& forall|p: Seq<char>| #[trigger]
                ps.contains(p) && starts_with(p, '&') ==> matched(i, p).contains(h)
            &&& forall|p: Seq<char>| #[trigger]
                ps.contains(p) && starts_with(p, '!') ==> !matched(i, p).contains(h)
        },
{
    let ps = patterns(limit);
    let r = regular(ps);
    let is_i = |p: Seq<char>| starts_with(p, '&');
    let is_e = |p: Seq<char>| starts_with(p, '!');
    let is_r = |p: Seq<char>| is_regular(p);
    let both = ps.filter(is_i);
    let out = ps.filter(is_e);
    let rest = both + out;
    lemma_filter_patterns(ps, is_i);
    lemma_filter_patterns(ps, is_e);
    lemma_filter_patterns(ps, is_r);
    assert(ordered(ps) =~= r + rest);
    assert forall|k: int| 0 <= k < r.len() implies is_regular(#[trigger] r[k]) by {
        if ps.filter(is_r).len() == 0 {
            reveal_strlit("all");
            assert("all"@.len() == 3);
            assert("all"@[0] == 'a');
        } else {
            assert(ps.filter(is_r).contains(r[k]));
        }
    }
    assert forall|k: int| 0 <= k < rest.len() implies starts_with(#[trigger] rest[k], '&')
        || starts_with(rest[k], '!') by {
        if k < both.len() {
            assert(both.contains(both[k]));
        } else {
            assert(out.contains(out[k - both.len()]));
        }
    }
    lemma_select_regular(i, r, h);
    lemma_select_rest(i, r, rest, h);
    let kept = forall|k: int|
        0 <= k < rest.len() ==> (matched(i, #[trigger] rest[k]).contains(h) <==> starts_with(
            rest[k],
            '&',
        ));
    if kept {
        assert forall|p: Seq<char>| #[trigger]
            ps.contains(p) && starts_with(p, '&') implies matched(i, p).contains(h) by {
            assert(both.contains(p));
            let k = choose|k: int| 0 <= k < both.len() && both[k] == p;
            assert(rest[k] == p);
        }
        assert forall|p: Seq<char>| #[trigger]
            ps.contains(p) && starts_with(p, '!') implies !matched(i, p).contains(h) by {
            assert(out.contains(p));
            let k = choose|k: int| 0 <= k < out.len() && out[k] == p;
            assert(rest[both.len() + k] == p);
        }
    }
    if (forall|p: Seq<char>| #[trigger]
        ps.contains(p) && starts_with(p, '&') ==> matched(i, p).contains(h)) && (forall|
        p: Seq<char>,
    | #[trigger] ps.contains(p) && starts_with(p, '!') ==> !matched(i, p).contains(h)) {
        assert forall|k: int| 0 <= k < rest.len() implies (matched(i, #[trigger] rest[k]).contains(
            h,
        ) <==> starts_with(rest[k], '&')) by {
            if k < both.len() {
                assert(both.contains(both[k]));
                assert(ps.contains(rest[k]));
            } else {
                assert(out.contains(out[k - both.len()]));
                assert(ps.contains(rest[k]));
            }
        }
    }
}

/// What a limit selects, where its patterns match what they pick.
proof fn lemma_wanted(i: InvView, limit: Seq<char>)
    requires
        forall|k: int|
            0 <= k < ordered(patterns(limit)).len() ==> known(
                i,
                #[trigger] ordered(patterns(limit))[k],
            ),
    ensures
        plain_hosts(i) && all_simple(limit) ==> forall|h: Name| #[trigger]
            selected(i, limit).contains(h) <==> wanted(i, limit, h),
        plain_hosts(i) && is_token(limit) && is_regular(limit) && is_simple(limit) ==> forall|
            h: Name,
        | #[trigger] selected(i, limit).contains(h) <==> picks(i, limit, h),
{
    let ps = patterns(limit);
    let r = regular(ps);
    let is_i = |p: Seq<char>| starts_with(p, '&');
    let is_e = |p: Seq<char>| starts_with(p, '!');
    let is_r = |p: Seq<char>| is_regular(p);
    let both = ps.filter(is_i);
    let out = ps.filter(is_e);
    lemma_filter_patterns(ps, is_i);
    lemma_filter_patterns(ps, is_e);
    lemma_filter_patterns(ps, is_r);
    assert forall|k: int| 0 <= k < r.len() implies known(i, #[trigger] r[k]) by {
        assert(ordered(ps)[k] == r[k]);
    }
    assert forall|p: Seq<char>| ps.contains(p) && (starts_with(p, '&') || starts_with(p, '!')) implies
        #[trigger] known(i, p) by {
        if starts_with(p, '&') {
            assert(both.contains(p));
            let k = choose|k: int| 0 <= k < both.len() && both[k] == p;
            assert(ordered(ps)[r.len() + k] == p);
        } else {
            assert(out.contains(p));
            let k = choose|k: int| 0 <= k < out.len() && out[k] == p;
            assert(ordered(ps)[r.len() + both.len() + k] == p);
        }
    }
    if plain_hosts(i) && all_simple(limit) {
        assert forall|k: int, h: Name| 0 <= k < r.len() implies #[trigger] stands_for(i, r[k], h)
            == picks(i, r[k], h) by {
            reveal_strlit("all");
            assert("all"@.len() == 3 && "all"@[0] == 'a' && "all"@[1] == 'l' && "all"@[2] == 'l');
            assert(known(i, r[k]));
            if ps.filter(is_r).len() > 0 {
                assert(ps.filter(is_r).contains(r[k]));
                assert(ps.contains(r[k]));
            } else {
                assert(r[k] == "all"@);
                assert(!r[k].contains('[')) by {
                    if r[k].contains('[') {
                        let j = choose|j: int| 0 <= j < r[k].len() && r[k][j] == '[';
                    }
                }
            }
            assert(bare(r[k]) == r[k]);
            assert(is_simple(bare(r[k])));
            assert(matched(i, r[k]).contains(h) <==> picked(i, bare(r[k]), h));
        }
        assert forall|p: Seq<char>, h: Name|
            ps.contains(p) && (starts_with(p, '&') || starts_with(p, '!')) implies (
        #[trigger] matched(i, p).contains(h) <==> picked(i, p.drop_first(), h)) by {
            assert(known(i, p));
            assert(bare(p) == p.drop_first());
        }
        assert forall|h: Name| #[trigger] selected(i, limit).contains(h) <==> wanted(i, limit, h) by {
            law_limit(i, limit, h);
            if exists|k: int| 0 <= k < r.len() && stands_for(i, #[trigger] r[k], h) {
                let k = choose|k: int| 0 <= k < r.len() && stands_for(i, #[trigger] r[k], h);
                assert(picks(i, r[k], h));
            }
            if exists|k: int| 0 <= k < r.len() && picks(i, #[trigger] r[k], h) {
                let k = choose|k: int| 0 <= k < r.len() && picks(i, #[trigger] r[k], h);
                assert(stands_for(i, r[k], h));
            }
        }
    }
    if plain_hosts(i) && is_token(limit) && is_regular(limit) && is_simple(limit) {
        lemma_token(limit);
        let one = seq![limit];
        assert(one[0] == limit);
        assert(one.contains(limit));
        assert forall|p: Seq<char>| #[trigger] ps.contains(p) implies p == limit by {
            let k = choose|k: int| 0 <= k < one.len() && one[k] == p;
        }
        lemma_regular_of(ps, limit);
        assert(ps.contains(limit));
        assert(r.contains(limit));
        let n = choose|n: int| 0 <= n < r.len() && r[n] == limit;
        assert(known(i, r[n]));
        assert(bare(limit) == limit);
        assert forall|h: Name| #[trigger] selected(i, limit).contains(h) <==> picks(i, limit, h) by {
            law_limit(i, limit, h);
            assert(matched(i, limit).contains(h) <==> picked(i, limit, h));
            assert(stands_for(i, limit, h) == picks(i, limit, h));
            if stands_for(i, limit, h) {
                assert(stands_for(i, r[n], h));
            }
            if exists|k: int| 0 <= k < r.len() && stands_for(i, #[trigger] r[k], h) {
                let k = choose|k: int| 0 <= k < r.len() && stands_for(i, #[trigger] r[k], h);
                assert(r.contains(r[k]));
                assert(ps.contains(r[k]));
            }
        }
    }
}

/// What stands behind a `~` is a regular expression for the start of a name, as it is
/// written.
pub proof fn law_regex_text(e: Seq<char>)
    ensures
        regex_of(seq!['~'] + e) == from_start(e),
{
    assert((seq!['~'] + e).drop_first() =~= e);
}

/// `~t` fits the names that start with `t`, and no others; so with `~t` for a limit every
/// host is selected whose name starts with `t`.
pub proof fn law_start_of_a_name(i: InvView, t: Seq<char>, h: Name)
    ensures
        fits_name(seq!['~'] + t, h) <==> t.len() <= h.len() && h.take(t.len() as int) == t,
        i.hosts.dom().contains(h) && t.len() <= h.len() && h.take(t.len() as int) == t
            && !i.hosts.dom().contains(seq!['~'] + t) ==> picks(i, seq!['~'] + t, h),
{
    assert((seq!['~'] + t).drop_first() =~= t);
    assert((seq!['~'] + t)[0] == '~');
}

/// A glob without `*`, `?` and brackets fits its own text alone.
pub proof fn law_plain_glob(p: Seq<char>, n: Name)
    requires
        !p.contains('*'),
        !p.contains('?'),
        p.len() > 0 ==> p[0] != '~',
    ensures
        fits_name(p, n) <==> n == p,
{
    lemma_literal_parts(p, Seq::empty(), n);
    assert(glob_parts(p) + Seq::<Part>::empty() =~= glob_parts(p));
    if begins(n, p) && n.skip(p.len() as int).len() == 0 {
        assert(n =~= p);
    }
    if n == p {
        assert(n.take(p.len() as int) =~= p);
    }
}

/// Parts that are characters match the start of a text.
proof fn lemma_literal_parts(a: Seq<char>, ps: Seq<Part>, n: Seq<char>)
    requires
        !a.contains('*'),
        !a.contains('?'),
    ensures
        parts_match(glob_parts(a) + ps, n) <==> begins(n, a) && parts_match(
            ps,
            n.skip(a.len() as int),
        ),
    decreases a.len(),
{
    let all = glob_parts(a) + ps;
    if a.len() == 0 {
        assert(all =~= ps);
        assert(n.skip(0) =~= n);
        assert(n.take(0) =~= a);
    } else {
        let u = a.drop_first();
        assert(a.contains(a[0]));
        assert forall|c: char| u.contains(c) implies a.contains(c) by {
            let k = choose|k: int| 0 <= k < u.len() && u[k] == c;
            assert(a[k + 1] == c);
        }
        assert(all.drop_first() =~= glob_parts(u) + ps);
        assert(all[0] == Part::Lit(a[0]));
        if n.len() > 0 {
            let m = n.drop_first();
            lemma_literal_parts(u, ps, m);
            if a.len() <= n.len() {
                assert(m.skip(u.len() as int) =~= n.skip(a.len() as int));
                if begins(m, u) && n[0] == a[0] {
                    assert(n.take(a.len() as int) =~= seq![a[0]] + u);
                    assert(a =~= seq![a[0]] + u);
                }
                if begins(n, a) {
                    assert(n.take(a.len() as int)[0] == n[0]);
                    assert(m.take(u.len() as int) =~= n.take(a.len() as int).drop_first());
                }
            }
        }
    }
}

/// A `*` between two texts fits every name that starts with the first and ends with the
/// second, one behind the other; and a `?` every name with one character between them.
pub proof fn law_wildcards(a: Seq<char>, b: Seq<char>, n: Name)
    requires
        !a.contains('*'),
        !a.contains('?'),
        !b.contains('*'),
        !b.contains('?'),
        a.len() > 0 ==> a[0] != '~',
    ensures
        fits_name(a + seq!['*'] + b, n) <==> a.len() + b.len() <= n.len() && begins(n, a) && n.skip(
            n.len() - b.len(),
        ) == b,
        fits_name(a + seq!['?'] + b, n) <==> a.len() + 1 + b.len() == n.len() && begins(n, a)
            && n.skip(n.len() - b.len()) == b,
{
    let rest = n.skip(a.len() as int);
    let tail = glob_parts(b);
    let none = Seq::<Part>::empty();
    assert(tail + none =~= tail);
    let many = seq![Part::Many] + tail;
    let one = seq![Part::One] + tail;
    assert(many.drop_first() =~= tail && one.drop_first() =~= tail);
    assert(glob_parts(a + seq!['*'] + b) =~= glob_parts(a) + many);
    assert(glob_parts(a + seq!['?'] + b) =~= glob_parts(a) + one);
    lemma_literal_parts(a, many, n);
    lemma_literal_parts(a, one, n);
    if begins(n, a) {
        assert forall|k: int| 0 <= k <= rest.len() implies parts_match(
            tail,
            #[trigger] rest.skip(k),
        ) == (rest.skip(k) == b) by {
            lemma_literal_parts(b, none, rest.skip(k));
            let m = rest.skip(k);
            if begins(m, b) && m.skip(b.len() as int).len() == 0 {
                assert(m =~= b);
            }
            if m == b {
                assert(m.take(b.len() as int) =~= b);
            }
        }
        let k = n.len() - b.len() - a.len();
        if k >= 0 {
            assert(rest.skip(k) =~= n.skip(n.len() - b.len()));
        }
        if rest.len() > 0 {
            assert(rest.drop_first() =~= rest.skip(1));
        }
    }
    assert((a + seq!['*'] + b).len() > 0 && (a.len() > 0 ==> (a + seq!['*'] + b)[0] == a[0]));
    assert(a.len() > 0 ==> (a + seq!['?'] + b)[0] == a[0]);
}

/// The pieces that are kept are trimmed and not empty.
proof fn lemma_trimmed(ps: Seq<Seq<char>>)
    ensures
        forall|k: int|
            0 <= k < trimmed(ps).len() ==> (#[trigger] trimmed(ps)[k]).len() > 0 && trim(
                trimmed(ps)[k],
            ) == trimmed(ps)[k] && exists|j: int|
                0 <= j < ps.len() && trimmed(ps)[k] == trim(#[trigger] ps[j]),
    decreases ps.len(),
{
    if ps.len() > 0 {
        let u = ps.drop_last();
        lemma_trimmed(u);
        lemma_trim(ps.last());
        assert forall|k: int| 0 <= k < trimmed(ps).len() implies (#[trigger] trimmed(ps)[k]).len()
            > 0 && trim(trimmed(ps)[k]) == trimmed(ps)[k] && exists|j: int|
            0 <= j < ps.len() && trimmed(ps)[k] == trim(#[trigger] ps[j]) by {
            if k < trimmed(u).len() {
                assert(trimmed(ps)[k] == trimmed(u)[k]);
                let j = choose|j: int| 0 <= j < u.len() && trimmed(u)[k] == trim(#[trigger] u[j]);
                assert(ps[j] == u[j]);
            } else {
                assert(trimmed(ps)[k] == trim(ps[ps.len() - 1]));
            }
        }
    }
}

/// Every colon of a piece stands within brackets.
pub open spec fn is_solid(x: Seq<char>) -> bool {
    forall|k: int| 0 <= k < x.len() && #[trigger] x[k] == ':' ==> open_brackets(x.take(k)) != 0
}

/// The pieces between colons are solid, where the one that has begun is.
proof fn lemma_pieces_solid(s: Seq<char>, p: int, cur: Seq<char>, depth: int)
    requires
        0 <= p <= s.len(),
        is_solid(cur),
        depth == open_brackets(cur),
        !s.contains(','),
        !cur.contains(','),
    ensures
        forall|k: int|
            0 <= k < colon_pieces(s, p, cur, depth).len() ==> is_solid(
                #[trigger] colon_pieces(s, p, cur, depth)[k],
            ) && !colon_pieces(s, p, cur, depth)[k].contains(','),
    decreases s.len() - p,
{
    if p < s.len() {
        assert(s.contains(s[p]));
        if s[p] == ':' && depth == 0 {
            assert(is_solid(Seq::<char>::empty()));
            lemma_pieces_solid(s, p + 1, Seq::empty(), depth);
            let rest = colon_pieces(s, p + 1, Seq::empty(), depth);
            assert forall|k: int|
                0 <= k < colon_pieces(s, p, cur, depth).len() implies is_solid(
                #[trigger] colon_pieces(s, p, cur, depth)[k],
            ) && !colon_pieces(s, p, cur, depth)[k].contains(',') by {
                if k > 0 {
                    assert(colon_pieces(s, p, cur, depth)[k] == rest[k - 1]);
                }
            }
        } else {
            let now = cur.push(s[p]);
            assert(now.drop_last() =~= cur);
            assert forall|k: int| 0 <= k < now.len() && #[trigger] now[k] == ':' implies open_brackets(
                now.take(k),
            ) != 0 by {
                if k < cur.len() {
                    assert(cur[k] == ':');
                    assert(now.take(k) =~= cur.take(k));
                } else {
                    assert(now.take(k) =~= cur);
                }
            }
            assert(!now.contains(',')) by {
                if now.contains(',') {
                    let k = choose|k: int| 0 <= k < now.len() && now[k] == ',';
                    assert(k < cur.len());
                    assert(cur[k] == ',');
                }
            }
            lemma_pieces_solid(s, p + 1, now, open_brackets(now));
            assert(now.last() == s[p]);
            assert(colon_pieces(s, p, cur, depth) == colon_pieces(
                s,
                p + 1,
                now,
                open_brackets(now),
            ));
        }
    } else {
        assert(colon_pieces(s, p, cur, depth) == seq![cur]);
    }
}

/// A solid text is one piece.
proof fn lemma_solid_is_one(x: Seq<char>, p: int)
    requires
        0 <= p <= x.len(),
        is_solid(x),
    ensures
        colon_pieces(x, p, x.take(p), open_brackets(x.take(p))) == seq![x],
    decreases x.len() - p,
{
    if p < x.len() {
        let now = x.take(p).push(x[p]);
        assert(now =~= x.take(p + 1));
        assert(now.drop_last() =~= x.take(p));
        lemma_solid_is_one(x, p + 1);
    } else {
        assert(x.take(p) =~= x);
    }
}

proof fn lemma_open_add(a: Seq<char>, b: Seq<char>)
    requires
        forall|k: int| 0 <= k < a.len() ==> is_space(#[trigger] a[k]),
    ensures
        open_brackets(a + b) == open_brackets(b),
    decreases a.len() + b.len(),
{
    if b.len() == 0 {
        assert(a + b =~= a);
        if a.len() > 0 {
            assert(is_space(a[a.len() - 1]));
            let u = a.drop_last();
            assert forall|k: int| 0 <= k < u.len() implies is_space(#[trigger] u[k]) by {
                assert(is_space(a[k]));
            }
            lemma_open_add(u, b);
            assert(u + b =~= u);
        }
    } else {
        assert((a + b).drop_last() =~= a + b.drop_last());
        lemma_open_add(a, b.drop_last());
    }
}

/// Trimming keeps a text solid.
proof fn lemma_trim_solid(x: Seq<char>)
    requires
        is_solid(x),
        !x.contains(','),
    ensures
        is_solid(trim(x)),
        !trim(x).contains(','),
{
    lemma_trim(x);
    let y = trim(x);
    let a = choose|a: int|
        #![trigger x.skip(a)]
        0 <= a && a + y.len() <= x.len() && y == x.skip(a).take(y.len() as int) && (forall|k: int|
            0 <= k < a ==> is_space(#[trigger] x[k]));
    assert forall|k: int| 0 <= k < y.len() && #[trigger] y[k] == ':' implies open_brackets(
        y.take(k),
    ) != 0 by {
        assert(x[a + k] == y[k]);
        let lead = x.take(a);
        assert(x.take(a + k) =~= lead + y.take(k));
        assert forall|m: int| 0 <= m < lead.len() implies is_space(#[trigger] lead[m]) by {
            assert(is_space(x[m]));
        }
        lemma_open_add(lead, y.take(k));
    }
    if y.contains(',') {
        let k = choose|k: int| 0 <= k < y.len() && y[k] == ',';
        assert(x[a + k] == ',');
    }
}

/// A trimmed, solid text is its own only pattern.
proof fn lemma_one_pattern(x: Seq<char>)
    requires
        is_solid(x),
        !x.contains(','),
        x.len() > 0,
        trim(x) == x,
    ensures
        patterns(x) == seq![x],
{
    assert(x.take(0) =~= Seq::empty());
    lemma_solid_is_one(x, 0);
    let one = seq![x];
    assert(one.drop_last() =~= Seq::empty());
    assert(trimmed(one.drop_last()) == Seq::<Seq<char>>::empty());
    assert(trimmed(one) =~= one);
}

/// Cutting at colons, where there are no brackets.
proof fn lemma_pieces_split(s: Seq<char>, p: int, cur: Seq<char>)
    requires
        0 <= p <= s.len(),
        !s.contains('['),
        !s.contains(']'),
        !cur.contains(':'),
    ensures
        colon_pieces(s, p, cur, 0) == split(cur + s.skip(p), ':'),
    decreases s.len() - p,
{
    let t = cur + s.skip(p);
    assert forall|j: int| 0 <= j < cur.len() implies t[j] != ':' by {
        assert(cur.contains(cur[j]));
    }
    if p >= s.len() {
        assert(t =~= cur);
        lemma_find_char(t, ':');
    } else {
        assert(s.contains(s[p]));
        assert(s.skip(p)[0] == s[p]);
        if s[p] == ':' {
            assert(t[cur.len() as int] == ':');
            lemma_find_char_unique(t, ':', cur.len() as int);
            lemma_pieces_split(s, p + 1, Seq::empty());
            assert(t.take(cur.len() as int) =~= cur);
            assert(t.skip(cur.len() as int + 1) =~= Seq::<char>::empty() + s.skip(p + 1));
        } else {
            let now = cur.push(s[p]);
            assert(now + s.skip(p + 1) =~= t);
            assert(!now.contains(':')) by {
                if now.contains(':') {
                    let k = choose|k: int| 0 <= k < now.len() && now[k] == ':';
                    assert(cur.contains(cur[k]));
                }
            }
            lemma_pieces_split(s, p + 1, now);
        }
    }
}

/// Every pattern of a limit is trimmed and not empty. Where the limit has a comma, commas
/// alone separate. Where it has none, every pattern is its own only pattern; and without
/// brackets, colons alone separate.
pub proof fn law_patterns(s: Seq<char>)
    ensures
        forall|k: int|
            0 <= k < patterns(s).len() ==> (#[trigger] patterns(s)[k]).len() > 0 && trim(
                patterns(s)[k],
            ) == patterns(s)[k],
        s.contains(',') ==> patterns(s) == trimmed(split(s, ',')),
        !s.contains(',') ==> forall|k: int|
            0 <= k < patterns(s).len() ==> patterns(#[trigger] patterns(s)[k]) == seq![
                patterns(s)[k],
            ],
        !s.contains(',') && !s.contains('[') && !s.contains(']') ==> patterns(s) == trimmed(
            split(s, ':'),
        ),
{
    let none = Seq::<char>::empty();
    let ps = if s.contains(',') {
        split(s, ',')
    } else {
        colon_pieces(s, 0, none, 0)
    };
    lemma_trimmed(ps);
    if !s.contains(',') {
        assert(is_solid(none));
        lemma_pieces_solid(s, 0, none, 0);
        assert forall|k: int| 0 <= k < patterns(s).len() implies patterns(
            #[trigger] patterns(s)[k],
        ) == seq![patterns(s)[k]] by {
            let x = trimmed(ps)[k];
            let j = choose|j: int| 0 <= j < ps.len() && x == trim(#[trigger] ps[j]);
            assert(is_solid(ps[j]) && !ps[j].contains(','));
            lemma_trim_solid(ps[j]);
            lemma_one_pattern(x);
        }
        if !s.contains('[') && !s.contains(']') {
            lemma_pieces_split(s, 0, none);
            assert(none + s.skip(0) =~= s);
        }
    }
}

/// A pattern that can be written next to others: not empty, without commas, colons and white
/// space.
pub open spec fn is_token(x: Seq<char>) -> bool {
    x.len() > 0 && forall|k: int|
        0 <= k < x.len() ==> #[trigger] x[k] != ',' && x[k] != ':' && !is_space(x[k])
}

proof fn lemma_token(x: Seq<char>)
    requires
        is_token(x),
    ensures
        !x.contains(','),
        trim(x) == x,
        patterns(x) == seq![x],
        split(x, ',') == seq![x],
{
    if x.contains(',') {
        let k = choose|k: int| 0 <= k < x.len() && x[k] == ',';
        assert(x[k] != ',');
    }
    assert(!is_space(x[0]));
    assert(!is_space(x[x.len() - 1]));
    assert(is_solid(x));
    lemma_one_pattern(x);
    lemma_find_char(x, ',');
}

/// Two texts with a comma between them, the first of them without one.
proof fn lemma_split_comma(x: Seq<char>, rest: Seq<char>)
    requires
        is_token(x),
    ensures
        split(x + seq![','] + rest, ',') == seq![x] + split(rest, ','),
{
    let s = x + seq![','] + rest;
    let n = x.len() as int;
    assert forall|j: int| 0 <= j < n implies s[j] != ',' by {
        assert(x[j] != ',');
    }
    assert(s[n] == ',');
    lemma_find_char_unique(s, ',', n);
    assert(s.take(n) =~= x);
    assert(s.skip(n + 1) =~= rest);
}

proof fn lemma_trimmed_tokens(ps: Seq<Seq<char>>)
    requires
        forall|k: int| 0 <= k < ps.len() ==> is_token(#[trigger] ps[k]),
    ensures
        trimmed(ps) == ps,
    decreases ps.len(),
{
    if ps.len() == 0 {
        assert(trimmed(ps) =~= ps);
    } else {
        let u = ps.drop_last();
        assert forall|k: int| 0 <= k < u.len() implies is_token(#[trigger] u[k]) by {
            assert(is_token(ps[k]));
        }
        lemma_trimmed_tokens(u);
        assert(is_token(ps[ps.len() - 1]));
        lemma_token(ps.last());
        assert(u.push(ps.last()) =~= ps);
    }
}

/// The patterns of two and of three tokens with commas between them.
proof fn lemma_listed_patterns(x: Seq<char>, y: Seq<char>, z: Seq<char>)
    requires
        is_token(x),
        is_token(y),
        is_token(z),
    ensures
        patterns(x + seq![','] + y) == seq![x, y],
        patterns(x + seq![','] + (y + seq![','] + z)) == seq![x, y, z],
{
    lemma_token(y);
    lemma_token(z);
    let two = x + seq![','] + y;
    assert(two[x.len() as int] == ',');
    lemma_split_comma(x, y);
    assert(seq![x] + seq![y] =~= seq![x, y]);
    let pair = seq![x, y];
    assert forall|k: int| 0 <= k < pair.len() implies is_token(#[trigger] pair[k]) by {
        assert(pair[0] == x && pair[1] == y);
    }
    lemma_trimmed_tokens(pair);
    let rest = y + seq![','] + z;
    let three = x + seq![','] + rest;
    assert(three[x.len() as int] == ',');
    lemma_split_comma(y, z);
    lemma_split_comma(x, rest);
    assert(seq![x] + (seq![y] + seq![z]) =~= seq![x, y, z]);
    let triple = seq![x, y, z];
    assert forall|k: int| 0 <= k < triple.len() implies is_token(#[trigger] triple[k]) by {
        assert(triple[0] == x && triple[1] == y && triple[2] == z);
    }
    lemma_trimmed_tokens(triple);
}

/// What some patterns select: `law_limit`, over the patterns.
spec fn chosen(i: InvView, ps: Seq<Seq<char>>, h: Name) -> bool {
    &&& exists|k: int| 0 <= k < regular(ps).len() && stands_for(i, #[trigger] regular(ps)[k], h)
    &&& forall|p: Seq<char>| #[trigger]
        ps.contains(p) && starts_with(p, '&') ==> matched(i, p).contains(h)
    &&& forall|p: Seq<char>| #[trigger]
        ps.contains(p) && starts_with(p, '!') ==> !matched(i, p).contains(h)
}

/// The patterns that select, among some of which one does.
proof fn lemma_regular_of(ps: Seq<Seq<char>>, p: Seq<char>)
    requires
        ps.contains(p),
        is_regular(p),
    ensures
        forall|x: Seq<char>| #[trigger] regular(ps).contains(x) <==> ps.contains(x) && is_regular(x),
{
    let r = ps.filter(|q: Seq<char>| is_regular(q));
    lemma_filter_patterns(ps, |q: Seq<char>| is_regular(q));
    assert(r.contains(p));
}

proof fn lemma_chosen(i: InvView, ps: Seq<Seq<char>>, p: Seq<char>, h: Name)
    requires
        ps.contains(p),
        is_regular(p),
    ensures
        chosen(i, ps, h) <==> {
            &&& exists|x: Seq<char>| #[trigger]
                ps.contains(x) && is_regular(x) && stands_for(i, x, h)
            &&& forall|x: Seq<char>| #[trigger]
                ps.contains(x) && starts_with(x, '&') ==> matched(i, x).contains(h)
            &&& forall|x: Seq<char>| #[trigger]
                ps.contains(x) && starts_with(x, '!') ==> !matched(i, x).contains(h)
        },
{
    let r = regular(ps);
    lemma_regular_of(ps, p);
    if exists|k: int| 0 <= k < r.len() && stands_for(i, #[trigger] r[k], h) {
        let k = choose|k: int| 0 <= k < r.len() && stands_for(i, #[trigger] r[k], h);
        assert(r.contains(r[k]));
        assert(ps.contains(r[k]));
    }
    if exists|x: Seq<char>| #[trigger] ps.contains(x) && is_regular(x) && stands_for(i, x, h) {
        let x = choose|x: Seq<char>| #[trigger]
            ps.contains(x) && is_regular(x) && stands_for(i, x, h);
        assert(r.contains(x));
        let k = choose|k: int| 0 <= k < r.len() && r[k] == x;
        assert(stands_for(i, r[k], h));
    }
}

/// Intersections and exclusions apply after the unions, in whatever order they are written:
/// `a,&b,!c` and `!c,&b,a` both select the hosts that `a` selects, `b` matches and `c` does
/// not; where `all` stands for a host, those are the hosts that all of `a`, `&b` and `!c`
/// select on their own. `a,b` and `b,a` both select what `a` or `b` selects.
pub proof fn law_written_order(i: InvView, a: Seq<char>, b: Seq<char>, c: Seq<char>, h: Name)
    requires
        plain_hosts(i),
        is_token(a),
        is_token(b),
        is_token(c),
        is_regular(a),
        is_regular(b),
    ensures
        ({
            let both = seq!['&'] + b;
            let out = seq!['!'] + c;
            let one = a + seq![','] + (both + seq![','] + out);
            let other = out + seq![','] + (both + seq![','] + a);
            let picked = stands_for(i, a, h) && matched(i, both).contains(h) && !matched(
                i,
                out,
            ).contains(h);
            &&& selected(i, one).contains(h) <==> picked
            &&& selected(i, other).contains(h) <==> picked
            &&& selected(i, a).contains(h) <==> stands_for(i, a, h)
            &&& stands_for(i, "all"@, h) ==> (picked <==> selected(i, a).contains(h) && selected(
                i,
                both,
            ).contains(h) && selected(i, out).contains(h))
            &&& selected(i, a + seq![','] + b).contains(h) <==> selected(i, a).contains(h)
                || selected(i, b).contains(h)
            &&& selected(i, b + seq![','] + a).contains(h) <==> selected(i, a).contains(h)
                || selected(i, b).contains(h)
        }),
{
    let both = seq!['&'] + b;
    let out = seq!['!'] + c;
    assert forall|k: int| 0 <= k < both.len() implies #[trigger] both[k] != ',' && both[k] != ':'
        && !is_space(both[k]) by {
        if k > 0 {
            assert(both[k] == b[k - 1]);
        }
    }
    assert forall|k: int| 0 <= k < out.len() implies #[trigger] out[k] != ',' && out[k] != ':'
        && !is_space(out[k]) by {
        if k > 0 {
            assert(out[k] == c[k - 1]);
        }
    }
    assert(is_token(both) && is_token(out));
    lemma_listed_patterns(a, both, out);
    lemma_listed_patterns(out, both, a);
    lemma_listed_patterns(a, b, b);
    lemma_listed_patterns(b, a, a);
    lemma_token(a);
    lemma_token(b);
    lemma_token(both);
    lemma_token(out);
    let p1 = seq![a, both, out];
    let p2 = seq![out, both, a];
    assert(p1[0] == a && p1[1] == both && p1[2] == out);
    assert(p2[0] == out && p2[1] == both && p2[2] == a);
    lemma_three(i, p1, a, both, out, h);
    lemma_three(i, p2, a, both, out, h);
    let q1 = seq![a, b];
    let q2 = seq![b, a];
    assert(q1[0] == a && q1[1] == b && q2[0] == b && q2[1] == a);
    lemma_two(i, q1, a, b, h);
    lemma_two(i, q2, a, b, h);
    assert(seq![a][0] == a && seq![b][0] == b);
    lemma_two(i, seq![a], a, a, h);
    lemma_two(i, seq![b], b, b, h);
    lemma_no_regular(i, both, h);
    lemma_no_regular(i, out, h);
    lemma_selected(i, a + seq![','] + (both + seq![','] + out), h);
    lemma_selected(i, out + seq![','] + (both + seq![','] + a), h);
    lemma_selected(i, a + seq![','] + b, h);
    lemma_selected(i, b + seq![','] + a, h);
    lemma_selected(i, a, h);
    lemma_selected(i, b, h);
    lemma_selected(i, both, h);
    lemma_selected(i, out, h);
}

proof fn lemma_selected(i: InvView, limit: Seq<char>, h: Name)
    requires
        plain_hosts(i),
    ensures
        selected(i, limit).contains(h) <==> chosen(i, patterns(limit), h),
{
    law_limit(i, limit, h);
}

/// What one pattern that selects, an intersection and an exclusion choose.
proof fn lemma_three(
    i: InvView,
    ps: Seq<Seq<char>>,
    a: Seq<char>,
    b: Seq<char>,
    c: Seq<char>,
    h: Name,
)
    requires
        forall|x: Seq<char>| #[trigger] ps.contains(x) <==> x == a || x == b || x == c,
        is_regular(a),
        starts_with(b, '&'),
        starts_with(c, '!'),
    ensures
        chosen(i, ps, h) <==> stands_for(i, a, h) && matched(i, b).contains(h) && !matched(
            i,
            c,
        ).contains(h),
{
    assert(ps.contains(a) && ps.contains(b) && ps.contains(c));
    lemma_chosen(i, ps, a, h);
}

/// What two patterns that select choose.
proof fn lemma_two(i: InvView, ps: Seq<Seq<char>>, a: Seq<char>, b: Seq<char>, h: Name)
    requires
        forall|x: Seq<char>| #[trigger] ps.contains(x) <==> x == a || x == b,
        is_regular(a),
        is_regular(b),
    ensures
        chosen(i, ps, h) <==> stands_for(i, a, h) || stands_for(i, b, h),
{
    assert(ps.contains(a) && ps.contains(b));
    lemma_chosen(i, ps, a, h);
}

/// A pattern that does not select, on its own, narrows `all`.
proof fn lemma_no_regular(i: InvView, p: Seq<char>, h: Name)
    requires
        p.len() > 0,
        !is_regular(p),
    ensures
        chosen(i, seq![p], h) <==> stands_for(i, "all"@, h) && (starts_with(p, '&') ==> matched(
            i,
            p,
        ).contains(h)) && (starts_with(p, '!') ==> !matched(i, p).contains(h)),
{
    let ps = seq![p];
    let r = ps.filter(|q: Seq<char>| is_regular(q));
    lemma_filter_patterns(ps, |q: Seq<char>| is_regular(q));
    assert(r.len() == 0) by {
        if r.len() > 0 {
            assert(r.contains(r[0]));
            assert(ps.contains(r[0]));
        }
    }
    assert(regular(ps) == seq!["all"@]);
    let all = regular(ps);
    assert(all[0] == "all"@);
    assert(ps[0] == p);
    assert(forall|x: Seq<char>| #[trigger] ps.contains(x) <==> x == p);
    if stands_for(i, "all"@, h) {
        assert(stands_for(i, all[0], h));
    }
    if chosen(i, ps, h) {
        let k = choose|k: int| 0 <= k < all.len() && stands_for(i, #[trigger] all[k], h);
        assert(k == 0);
        assert(ps.contains(p));
    }
}

} // verus!
