//! What the lines of an INI file are for: sections, hosts, children and variables.

use vstd::prelude::*;
use crate::assoc::{distinct, get, holds, lemma_pos, lemma_pos_unique, lemma_put_get, pos, put, Name};
use crate::construct_laws::{in_group, lemma_joined_hosts, lemma_linked_hosts};
use crate::document_laws::{lemma_child_alike, under};
use crate::error::ErrorView;
use crate::expr::filter_laws::lemma_trim_around;
use crate::growth::{adds, grows, leads, lemma_child_step, lemma_define_hosts, lemma_enter_section, lemma_group_step, lemma_host_step, lemma_ini_line, lemma_settle, lemma_settle_under};
use crate::hostrange::expanded_pattern;
use crate::ini::{child_name, define_host, define_hosts, double_quoted, holds_space, host_assignments, ini_line, ini_lines, ini_read, ini_start, ini_value, lemma_fewer_pending, lemma_no_more_pending, name_child, pending_wf, section, section_state, set_host_vars, settle, settle_under, uncommented, word_end, words, IniState, PendingGroups, State};
use crate::model::{InvView, PRIORITY_VAR};
use crate::sanitize::{is_safe, lemma_safe_name_fixed, lemma_safe_name_is_safe, safe_name};
use crate::text::{find_char, is_alnum, is_ascii, is_digit, is_letter, is_space, lemma_find_char, lemma_find_char_unique, split, trim, trim_start};
use crate::value::{ValueView, VarsView};

verus! {

// ---------------------------------------------------------------------------------------
// Sections
// ---------------------------------------------------------------------------------------

/// A name that can stand in a section header.
pub open spec fn is_header_name(g: Seq<char>) -> bool {
    g.len() > 0 && forall|k: int|
        0 <= k < g.len() ==> #[trigger] g[k] != ']' && g[k] != ':' && !is_space(g[k])
}

/// The header `[g]`, or `[g:tag]`, with a comment behind it or without one.
pub open spec fn header(g: Seq<char>, tag: Option<Seq<char>>, comment: Option<Seq<char>>) -> Seq<char> {
    seq!['['] + g + (match tag {
        Some(t) => seq![':'] + t,
        None => Seq::empty(),
    }) + seq![']'] + (match comment {
        Some(c) => seq![' ', '#'] + c,
        None => Seq::empty(),
    })
}

/// Letters, digits and underscores.
pub open spec fn is_tag_word(t: Seq<char>) -> bool {
    t.len() > 0 && forall|k: int|
        0 <= k < t.len() ==> is_letter(#[trigger] t[k]) || is_digit(t[k]) || t[k] == '_'
}

proof fn lemma_header(g: Seq<char>, tag: Option<Seq<char>>, comment: Option<Seq<char>>)
    requires
        is_header_name(g),
        tag matches Some(t) ==> is_tag_word(t),
    ensures
        section(header(g, tag, comment)) == Some((g, tag)),
{
    let line = header(g, tag, comment);
    let inner = g + (match tag {
        Some(t) => seq![':'] + t,
        None => Seq::empty(),
    });
    let n = 1 + inner.len() as int;
    assert forall|k: int| 0 <= k < inner.len() implies inner[k] != ']' && !is_space(inner[k]) by {
        if k < g.len() {
            assert(inner[k] == g[k]);
        } else if let Some(t) = tag {
            if k > g.len() {
                assert(inner[k] == t[k - g.len() - 1]);
                assert(is_letter(t[k - g.len() - 1]) || is_digit(t[k - g.len() - 1]) || t[k
                    - g.len() - 1] == '_');
            }
        }
    }
    assert forall|k: int| 0 <= k < n implies line[k] != ']' by {
        if k > 0 {
            assert(line[k] == inner[k - 1]);
        }
    }
    assert(line[n] == ']');
    lemma_find_char_unique(line, ']', n);
    assert(line.subrange(1, n) =~= inner);
    let rest = line.skip(n + 1);
    if let Some(c) = comment {
        assert(rest =~= seq![' ', '#'] + c);
        assert(rest[0] == ' ');
        assert(rest.drop_first()[0] == '#');
        assert(trim_start(rest) == trim_start(rest.drop_first()));
        assert(trim_start(rest.drop_first()) == rest.drop_first());
    } else {
        assert(rest =~= Seq::empty());
    }
    assert(!holds_space(inner));
    match tag {
        None => {
            assert(inner =~= g);
            lemma_find_char(inner, ':');
            if inner.contains(':') {
                let k = choose|k: int| 0 <= k < inner.len() && inner[k] == ':';
                assert(g[k] != ':');
            }
        },
        Some(t) => {
            let m = g.len() as int;
            assert forall|k: int| 0 <= k < m implies inner[k] != ':' by {
                assert(inner[k] == g[k]);
            }
            assert(inner[m] == ':');
            lemma_find_char_unique(inner, ':', m);
            assert(inner.take(m) =~= g);
            assert(inner.skip(m + 1) =~= t);
            assert forall|k: int| 0 <= k < t.len() implies is_alnum(#[trigger] t[k]) || t[k] == '_' by {
                assert(is_letter(t[k]) || is_digit(t[k]) || t[k] == '_');
                assert(is_letter(t[k]) || is_digit(t[k]) ==> is_ascii(t[k]));
            }
        },
    }
}

/// A section header opens its group: the group is there, under its safe name, and the lines
/// that follow are about its hosts, its children or its variables, as the tag says; a tag
/// that is not known is an error.
pub proof fn law_sections(
    st: IniState,
    g: Seq<char>,
    tag: Option<Seq<char>>,
    comment: Option<Seq<char>>,
    path: Seq<char>,
)
    requires
        st.wf(),
        is_header_name(g),
        tag matches Some(t) ==> is_tag_word(t),
    ensures
        ({
            let (now, e) = ini_line(st, header(g, tag, comment), path);
            let known = tag is None || tag == Some("hosts"@) || tag == Some("children"@) || tag == Some(
                "vars"@,
            );
            &&& known <==> e is None
            &&& !known ==> now == st
            &&& known ==> now.group == safe_name(g) && now.inv.groups.dom().contains(safe_name(g))
            &&& tag is None || tag == Some("hosts"@) ==> now.state == State::Hosts
            &&& tag == Some("children"@) ==> now.state == State::Children
            &&& tag == Some("vars"@) ==> now.state == State::Vars
        }),
{
    lemma_header(g, tag, comment);
    reveal_strlit("hosts");
    reveal_strlit("children");
    reveal_strlit("vars");
    assert("hosts"@.len() == 5 && "children"@.len() == 8 && "vars"@.len() == 4);
    let line = header(g, tag, comment);
    assert(line[0] == '[');
    lemma_safe_name_is_safe(g);
    if let Some(state) = section_state(tag) {
        lemma_enter_section(st, safe_name(g), state);
    }
}

// ---------------------------------------------------------------------------------------
// Hosts
// ---------------------------------------------------------------------------------------

/// A line that is no comment and no section header.
pub open spec fn is_entry(line: Seq<char>) -> bool {
    line.len() > 0 && line[0] != '#' && line[0] != ';' && line[0] != '['
}

proof fn lemma_entry_is_no_section(line: Seq<char>)
    requires
        is_entry(line),
    ensures
        section(line) is None,
{
}

/// The words of a host line that assign variables.
pub open spec fn assigns(w: Seq<char>, k: Name, v: Seq<char>) -> bool {
    !k.contains('=') && w == k + seq!['='] + v
}

proof fn lemma_cut(k: Name, v: Seq<char>)
    requires
        !k.contains('='),
    ensures
        ({
            let w = k + seq!['='] + v;
            let eq = find_char(w, '=');
            eq == k.len() && w.take(eq) == k && w.skip(eq + 1) == v
        }),
{
    let w = k + seq!['='] + v;
    let n = k.len() as int;
    assert forall|j: int| 0 <= j < n implies w[j] != '=' by {
        assert(w[j] == k[j]);
        assert(k.contains(k[j]));
    }
    assert(w[n] == '=');
    lemma_find_char_unique(w, '=', n);
    assert(w.take(n) =~= k);
    assert(w.skip(n + 1) =~= v);
}

proof fn lemma_assignments(ws: Seq<Seq<char>>, ks: Seq<Name>, vs: Seq<Seq<char>>, path: Seq<char>)
    requires
        ws.len() == ks.len() + 1,
        vs.len() == ks.len(),
        forall|j: int| 0 <= j < ks.len() ==> assigns(#[trigger] ws[j + 1], ks[j], vs[j]),
    ensures
        host_assignments(ws, path) == Ok::<VarsView, ErrorView>(
            Seq::new(ks.len(), |j: int| (ks[j], ini_value(vs[j]))),
        ),
    decreases ks.len(),
{
    let all = Seq::new(ks.len(), |j: int| (ks[j], ini_value(vs[j])));
    if ks.len() == 0 {
        assert(all =~= Seq::empty());
    } else {
        let n = ks.len() - 1;
        let (xs, us, rest) = (ks.drop_last(), vs.drop_last(), ws.drop_last());
        assert forall|j: int| 0 <= j < xs.len() implies assigns(#[trigger] rest[j + 1], xs[j], us[j]) by {
            assert(assigns(ws[j + 1], ks[j], vs[j]));
        }
        lemma_assignments(rest, xs, us, path);
        assert(assigns(ws[n + 1], ks[n], vs[n]));
        lemma_cut(ks[n], vs[n]);
        assert(all =~= Seq::new(xs.len(), |j: int| (xs[j], ini_value(us[j]))).push(
            (ks[n], ini_value(vs[n])),
        ));
    }
}

proof fn lemma_vars_set(i: InvView, h: Name, vars: VarsView, k: Name)
    requires
        i.hosts.dom().contains(h),
        distinct(vars),
    ensures
        set_host_vars(i, h, vars).hosts.dom() == i.hosts.dom(),
        get(set_host_vars(i, h, vars).hosts[h].vars, k) == (match get(vars, k) {
            Some(v) => Some(v),
            None => get(i.hosts[h].vars, k),
        }),
        forall|x: Name|
            x != h && i.hosts.dom().contains(x) ==> #[trigger] set_host_vars(i, h, vars).hosts[x]
                == i.hosts[x],
        set_host_vars(i, h, vars).groups == i.groups,
    decreases vars.len(),
{
    lemma_pos(vars, k);
    if vars.len() > 0 {
        let u = vars.drop_last();
        let n = vars.len() - 1;
        assert(distinct(u)) by {
            assert forall|a: int, b: int| 0 <= a < b < u.len() implies (#[trigger] u[a]).0 != (
            #[trigger] u[b]).0 by {
                assert(vars[a].0 != vars[b].0);
            }
        }
        lemma_vars_set(i, h, u, k);
        let j = set_host_vars(i, h, u);
        let (x, v) = vars.last();
        lemma_put_get(j.hosts[h].vars, x, v, k);
        assert(set_host_vars(i, h, vars).hosts.dom() =~= i.hosts.dom());
        lemma_pos(u, x);
        assert(!holds(u, x)) by {
            if holds(u, x) {
                let p = pos(u, x);
                assert(vars[p].0 != vars[n].0);
                assert(u[p] == vars[p]);
            }
        }
        assert(vars =~= put(u, x, v)) by {
            assert(vars =~= u.push(vars.last()));
        }
        lemma_put_get(u, x, v, k);
    }
}

/// What one host of a line gets.
proof fn lemma_defined(i: InvView, g: Name, h: Name, port: Option<u32>, vars: VarsView, k: Name)
    requires
        i.wf(),
        i.groups.dom().contains(g),
        distinct(vars),
    ensures
        ({
            let j = define_host(i, g, h, port, vars);
            &&& j.hosts.dom().contains(h)
            &&& i.hosts.dom().subset_of(j.hosts.dom())
            &&& in_group(j, h, g)
            &&& get(vars, k) matches Some(v) ==> get(j.hosts[h].vars, k) == Some(v)
            &&& get(vars, "ansible_port"@) is None && port is Some ==> get(
                j.hosts[h].vars,
                "ansible_port"@,
            ) == Some(ValueView::Int(port.unwrap() as int))
            &&& get(vars, k) is None && k != "ansible_port"@ && i.hosts.dom().contains(h) ==> get(
                j.hosts[h].vars,
                k,
            ) == get(i.hosts[h].vars, k)
            &&& forall|x: Name|
                x != h && i.hosts.dom().contains(x) ==> #[trigger] j.hosts[x] == i.hosts[x]
            &&& forall|x: Name, q: Name| #[trigger]
                in_group(j, x, q) <==> in_group(i, x, q) || (x == h && q == g)
        }),
{
    let a = i.add_host(h).add_host_to_group(h, g);
    lemma_host_step(i, h, g);
    assert(a.hosts.dom().contains(h));
    let b = match port {
        Some(p) => a.set_host_var(h, "ansible_port"@, ValueView::Int(p as int)),
        None => a,
    };
    lemma_vars_set(b, h, vars, k);
    lemma_vars_set(b, h, vars, "ansible_port"@);
    if let Some(p) = port {
        lemma_put_get(a.hosts[h].vars, "ansible_port"@, ValueView::Int(p as int), k);
        lemma_put_get(
            a.hosts[h].vars,
            "ansible_port"@,
            ValueView::Int(p as int),
            "ansible_port"@,
        );
    }
    assert forall|x: Name, q: Name| #[trigger]
        in_group(define_host(i, g, h, port, vars), x, q) <==> in_group(i, x, q) || (x == h && q
        == g) by {
        lemma_joined_hosts(i.add_host(h), h, g, x, q);
    }
    assert(in_group(define_host(i, g, h, port, vars), h, g));
}

proof fn lemma_all_defined(
    i: InvView,
    g: Name,
    hs: Seq<Name>,
    port: Option<u32>,
    vars: VarsView,
    x: Name,
    k: Name,
)
    requires
        i.wf(),
        i.groups.dom().contains(g),
        distinct(vars),
    ensures
        ({
            let j = define_hosts(i, g, hs, port, vars);
            &&& hs.contains(x) ==> j.hosts.dom().contains(x) && in_group(j, x, g)
            &&& hs.contains(x) && get(vars, k) is Some ==> get(j.hosts[x].vars, k) == get(vars, k)
            &&& hs.contains(x) && get(vars, "ansible_port"@) is None && port is Some ==> get(
                j.hosts[x].vars,
                "ansible_port"@,
            ) == Some(ValueView::Int(port.unwrap() as int))
            &&& !hs.contains(x) && i.hosts.dom().contains(x) ==> j.hosts[x] == i.hosts[x]
            &&& forall|q: Name| #[trigger]
                in_group(j, x, q) <==> in_group(i, x, q) || (hs.contains(x) && q == g)
        }),
    decreases hs.len(),
{
    if hs.len() > 0 {
        let u = hs.drop_last();
        let h = hs.last();
        lemma_all_defined(i, g, u, port, vars, x, k);
        lemma_define_hosts(i, g, u, port, vars);
        let j = define_hosts(i, g, u, port, vars);
        assert(j.groups.dom().contains(g));
        lemma_defined(j, g, h, port, vars, k);
        if i.hosts.dom().contains(x) {
            assert(j.hosts.dom().contains(x));
        }
        assert(hs.contains(x) <==> u.contains(x) || x == h) by {
            if u.contains(x) {
                let n = choose|n: int| 0 <= n < u.len() && u[n] == x;
                assert(hs[n] == x);
            }
            if x == h {
                assert(hs[hs.len() - 1] == x);
            }
            if hs.contains(x) && x != h {
                let n = choose|n: int| 0 <= n < hs.len() && hs[n] == x;
                assert(u[n] == x);
            }
        }
    }
}

/// A host line puts every host that its first word stands for into the section's group, and
/// sets on each the variables that its other words assign, every one to the value that is
/// written; a port becomes `ansible_port`. Other hosts are left alone.
pub proof fn law_host_lines(
    st: IniState,
    line: Seq<char>,
    ks: Seq<Name>,
    vs: Seq<Seq<char>>,
    path: Seq<char>,
    h: Name,
    m: int,
)
    requires
        st.wf(),
        st.state == State::Hosts,
        is_entry(line),
        words(line, 0, None).len() == ks.len() + 1,
        vs.len() == ks.len(),
        ks.no_duplicates(),
        forall|j: int|
            0 <= j < ks.len() ==> assigns(#[trigger] words(line, 0, None)[j + 1], ks[j], vs[j]),
    ensures
        ({
            let (now, e) = ini_line(st, line, path);
            match expanded_pattern(words(line, 0, None)[0]) {
                Err(_) => e is Some && now == st,
                Ok((hs, port)) => {
                    &&& e is None
                    &&& now.group == st.group && now.state == st.state
                    &&& hs.contains(h) ==> {
                        &&& now.inv.hosts.dom().contains(h)
                        &&& in_group(now.inv, h, st.group)
                        &&& 0 <= m < ks.len() ==> get(now.inv.hosts[h].vars, ks[m]) == Some(
                            ini_value(vs[m]),
                        )
                        &&& port is Some && !ks.contains("ansible_port"@) ==> get(
                            now.inv.hosts[h].vars,
                            "ansible_port"@,
                        ) == Some(ValueView::Int(port.unwrap() as int))
                    }
                    &&& !hs.contains(h) && st.inv.hosts.dom().contains(h) ==> now.inv.hosts[h]
                        == st.inv.hosts[h]
                    &&& forall|q: Name| #[trigger]
                        in_group(now.inv, h, q) <==> in_group(st.inv, h, q) || (hs.contains(h) && q
                            == st.group)
                },
            }
        }),
{
    let ws = words(line, 0, None);
    lemma_entry_is_no_section(line);
    lemma_assignments(ws, ks, vs, path);
    let vars: VarsView = Seq::new(ks.len(), |j: int| (ks[j], ini_value(vs[j])));
    assert(distinct(vars)) by {
        assert forall|a: int, b: int| 0 <= a < b < vars.len() implies (#[trigger] vars[a]).0 != (
        #[trigger] vars[b]).0 by {
            assert(ks[a] != ks[b]);
        }
    }
    if let Ok((hs, port)) = expanded_pattern(ws[0]) {
        if 0 <= m < ks.len() {
            lemma_pos_unique(vars, ks[m], m);
            lemma_all_defined(st.inv, st.group, hs, port, vars, h, ks[m]);
        } else {
            lemma_all_defined(st.inv, st.group, hs, port, vars, h, h);
        }
        lemma_pos(vars, "ansible_port"@);
        if holds(vars, "ansible_port"@) {
            let p = pos(vars, "ansible_port"@);
            assert(ks[p] == "ansible_port"@);
            assert(ks.contains("ansible_port"@));
        }
    }
}

/// A word behind the first of a host line that assigns nothing is an error.
pub proof fn law_bad_host_lines(st: IniState, line: Seq<char>, path: Seq<char>)
    requires
        st.state == State::Hosts,
        is_entry(line),
        words(line, 0, None).len() == 2,
        !words(line, 0, None)[1].contains('='),
    ensures
        ini_line(st, line, path).0 == st,
        ini_line(st, line, path).1 is Some,
{
    let ws = words(line, 0, None);
    lemma_entry_is_no_section(line);
    lemma_find_char(ws[1], '=');
    assert(ws.drop_last().len() == 1);
    assert(host_assignments(ws.drop_last(), path) == Ok::<VarsView, ErrorView>(Seq::empty()));
}

// ---------------------------------------------------------------------------------------
// Quotes
// ---------------------------------------------------------------------------------------

/// Plain characters of a word.
pub open spec fn is_plain_part(w: Seq<char>) -> bool {
    w.len() > 0 && w[0] != '#' && forall|k: int|
        0 <= k < w.len() ==> !is_space(#[trigger] w[k]) && w[k] != '\'' && w[k] != '"' && w[k]
            != '\\'
}

proof fn lemma_part(s: Seq<char>, w: Seq<char>, k: int)
    requires
        is_plain_part(w),
        w.len() <= s.len(),
        s.take(w.len() as int) == w,
        1 <= k <= w.len(),
    ensures
        words(s, k, Some(w.take(k))) == words(s, w.len() as int, Some(w)),
    decreases w.len() - k,
{
    if k == w.len() {
        assert(w.take(k) =~= w);
    } else {
        assert(s[k] == s.take(w.len() as int)[k]);
        assert(w.take(k).push(w[k]) =~= w.take(k + 1));
        lemma_part(s, w, k + 1);
    }
}

proof fn lemma_double(s: Seq<char>, t: Seq<char>, p: int, k: int)
    requires
        !t.contains('"'),
        !t.contains('\\'),
        0 <= p,
        p + t.len() < s.len(),
        s.subrange(p, p + t.len()) == t,
        s[p + t.len()] == '"',
        0 <= k <= t.len(),
    ensures
        double_quoted(s, p + k) == (t.skip(k), p + t.len() + 1),
    decreases t.len() - k,
{
    if k == t.len() {
        assert(t.skip(k) =~= Seq::empty());
    } else {
        assert(s[p + k] == s.subrange(p, p + t.len())[k]);
        assert(t.contains(t[k]));
        lemma_double(s, t, p, k + 1);
        assert(t.skip(k) =~= seq![t[k]] + t.skip(k + 1));
    }
}

/// A value between quotes belongs to the word before it, with whatever white space it holds:
/// `a't'` and `a"t"` are the word `at`.
pub proof fn law_quotes_join(a: Seq<char>, t: Seq<char>)
    requires
        is_plain_part(a),
    ensures
        !t.contains('\'') ==> words(a + seq!['\''] + t + seq!['\''], 0, None) == seq![a + t],
        !t.contains('"') && !t.contains('\\') ==> words(a + seq!['"'] + t + seq!['"'], 0, None)
            == seq![a + t],
{
    let n = a.len() as int;
    if !t.contains('\'') {
        let s = a + seq!['\''] + t + seq!['\''];
        assert(s.take(n) =~= a);
        assert(s[0] == a[0]);
        assert(Seq::<char>::empty().push(s[0]) =~= a.take(1));
        lemma_part(s, a, 1);
        assert(words(s, 0, None) == words(s, n, Some(a)));
        assert(s[n] == '\'');
        let r = s.skip(n + 1);
        assert forall|j: int| 0 <= j < t.len() implies r[j] != '\'' by {
            assert(r[j] == t[j]);
            assert(t.contains(t[j]));
        }
        assert(r[t.len() as int] == '\'');
        lemma_find_char_unique(r, '\'', t.len() as int);
        assert(s.subrange(n + 1, n + 1 + t.len()) =~= t);
        assert(words(s, s.len() as int, Some(a + t)) =~= seq![a + t]);
    }
    if !t.contains('"') && !t.contains('\\') {
        let s = a + seq!['"'] + t + seq!['"'];
        assert(s.take(n) =~= a);
        assert(s[0] == a[0]);
        assert(Seq::<char>::empty().push(s[0]) =~= a.take(1));
        lemma_part(s, a, 1);
        assert(words(s, 0, None) == words(s, n, Some(a)));
        assert(s[n] == '"');
        assert(s.subrange(n + 1, n + 1 + t.len()) =~= t);
        assert(s[n + 1 + t.len()] == '"');
        lemma_double(s, t, n + 1, 0);
        assert(t.skip(0) =~= t);
        assert(words(s, s.len() as int, Some(a + t)) =~= seq![a + t]);
    }
}

// ---------------------------------------------------------------------------------------
// Variables and children
// ---------------------------------------------------------------------------------------

/// A line of a `vars` section sets one variable of the section's group, to the value behind
/// the first `=`, white space around both aside; and nothing else.
pub proof fn law_variable_lines(st: IniState, k: Name, v: Seq<char>, path: Seq<char>, other: Name)
    requires
        st.wf(),
        st.state == State::Vars,
        is_entry(k + seq!['='] + v),
        !k.contains('='),
        trim(k) != PRIORITY_VAR@,
        other != trim(k),
    ensures
        ({
            let (now, e) = ini_line(st, k + seq!['='] + v, path);
            &&& e is None
            &&& get(now.inv.groups[st.group].vars, trim(k)) == Some(ini_value(trim(v)))
            &&& get(now.inv.groups[st.group].vars, other) == get(
                st.inv.groups[st.group].vars,
                other,
            )
            &&& now.inv.hosts == st.inv.hosts
            &&& forall|q: Name|
                q != st.group && st.inv.groups.dom().contains(q) ==> #[trigger] now.inv.groups[q]
                    == st.inv.groups[q]
        }),
{
    let line = k + seq!['='] + v;
    lemma_entry_is_no_section(line);
    lemma_cut(k, v);
    lemma_put_get(st.inv.groups[st.group].vars, trim(k), ini_value(trim(v)), trim(k));
    lemma_put_get(st.inv.groups[st.group].vars, trim(k), ini_value(trim(v)), other);
}

/// The first word of a text without white space.
proof fn lemma_child_name(c: Seq<char>)
    requires
        c.len() > 0,
        forall|k: int| 0 <= k < c.len() ==> !is_space(#[trigger] c[k]) && c[k] != '#',
    ensures
        child_name(c) == safe_name(c),
{
    lemma_find_char(c, '#');
    if c.contains('#') {
        let k = choose|k: int| 0 <= k < c.len() && c[k] == '#';
        assert(c[k] != '#');
    }
    assert(c.take(find_char(c, '#')) =~= c);
    assert(!is_space(c[0]) && !is_space(c[c.len() - 1]));
    assert(trim(c) == c);
    lemma_word_end(c);
    assert(c.take(c.len() as int) =~= c);
}

proof fn lemma_word_end(c: Seq<char>)
    requires
        forall|k: int| 0 <= k < c.len() ==> !is_space(#[trigger] c[k]),
    ensures
        word_end(c) == c.len(),
    decreases c.len(),
{
    if c.len() > 0 {
        assert(!is_space(c[0]));
        let u = c.drop_first();
        assert forall|k: int| 0 <= k < u.len() implies !is_space(#[trigger] u[k]) by {
            assert(!is_space(c[k + 1]));
        }
        lemma_word_end(u);
    }
}

/// A line of a `children` section puts a group that is there under the section's group.
pub proof fn law_child_lines(st: IniState, c: Seq<char>, path: Seq<char>)
    requires
        st.wf(),
        st.state == State::Children,
        is_entry(c),
        forall|k: int| 0 <= k < c.len() ==> !is_space(#[trigger] c[k]) && c[k] != '#',
        st.inv.groups.dom().contains(safe_name(c)),
        safe_name(c) != st.group,
    ensures
        ini_line(st, c, path).1 is None,
        ini_line(st, c, path).0.inv.groups[st.group].children.contains(safe_name(c)),
        ini_line(st, c, path).0.group == st.group,
        ini_line(st, c, path).0.state == State::Children,
{
    lemma_entry_is_no_section(c);
    lemma_child_name(c);
    lemma_linked_hosts(st.inv, st.group, safe_name(c), c, c);
}

/// A group that a `children` section names before it is declared goes under the section's
/// group once a section header declares it.
pub proof fn law_children_before_their_section(st: IniState, c: Seq<char>, path: Seq<char>)
    requires
        st.wf(),
        st.state == State::Children,
        is_entry(c),
        is_header_name(c),
        forall|k: int| 0 <= k < c.len() ==> !is_space(#[trigger] c[k]) && c[k] != '#',
        !st.inv.groups.dom().contains(safe_name(c)),
        !st.pending.dom().contains(safe_name(c)),
    ensures
        ({
            let named = ini_line(st, c, path);
            let (now, e) = ini_line(named.0, header(c, None, None), path);
            &&& named.1 is None && e is None
            &&& now.inv.groups.dom().contains(safe_name(c))
            &&& now.inv.groups.dom().contains(st.group)
            &&& now.inv.groups[st.group].children.contains(safe_name(c))
        }),
{
    let n = safe_name(c);
    lemma_entry_is_no_section(c);
    lemma_child_name(c);
    lemma_safe_name_is_safe(c);
    lemma_safe_name_fixed(c);
    lemma_safe_name_fixed(n);
    lemma_ini_line(st, c, path);
    let st1 = ini_line(st, c, path).0;
    assert(st1 == name_child(st, n));
    let p = st1.pending;
    assert(p[n].parents =~= seq![st.group]);
    lemma_header(c, None, None);
    let line = header(c, None, None);
    assert(line[0] == '[');
    lemma_enter_section(st1, n, State::Hosts);
    let inv = st1.inv.add_group(n);
    lemma_group_step(st1.inv, n);
    let none = Set::<Name>::empty();
    lemma_fewer_pending(p.dom(), none, none.insert(n), n);
    let ps = seq![st.group];
    assert(inv.add_group(n) == inv);
    let gone = none.insert(n);
    let (end, all) = settle(inv, p, none, n);
    assert((end, all) == settle_under(inv, p, gone, n, p[n].parents));
    assert(p[n].parents == ps);
    let q = ps[0];
    assert(q == st.group);
    assert(st.inv.groups.dom().contains(q));
    assert(inv.groups.dom().contains(q));
    lemma_safe_name_fixed(q);
    assert(inv.add_group(q) == inv);
    let linked = inv.add_child(q, n);
    lemma_linked_hosts(inv, q, n, n, n);
    lemma_child_step(inv, q, n);
    assert(linked.groups[q].children.contains(n));
    let rest = ps.drop_first();
    assert(rest =~= Seq::empty());
    if p.dom().contains(q) && !gone.contains(q) && p[q].state == State::Children {
        let (j, s) = settle(linked, p, gone, q);
        lemma_settle(linked, p, gone, q);
        assert(settle_under(j, p, gone.union(s), n, rest) == (j, gone.union(s)));
        lemma_children_stay(linked, j, q, n);
        assert(end == j);
    } else {
        assert(settle_under(linked, p, gone, n, rest) == (linked, gone));
        assert(end == linked);
    }
}

proof fn lemma_children_stay(i: InvView, j: InvView, p: Name, c: Name)
    requires
        grows(i, j),
        i.groups.dom().contains(p),
        i.groups[p].children.contains(c),
    ensures
        j.groups.dom().contains(p),
        j.groups[p].children.contains(c),
{
    let (a, b) = (i.groups[p].children, j.groups[p].children);
    assert(leads(a, b));
    let k = choose|k: int| 0 <= k < a.len() && a[k] == c;
    assert(b.take(a.len() as int)[k] == b[k]);
}

// ---------------------------------------------------------------------------------------
// Lines behind one another
// ---------------------------------------------------------------------------------------

proof fn lemma_split_lines(a: Seq<char>, b: Seq<char>)
    ensures
        split(a + seq!['\n'] + b, '\n') == split(a, '\n') + split(b, '\n'),
    decreases a.len(),
{
    let s = a + seq!['\n'] + b;
    let i = find_char(a, '\n');
    lemma_find_char(a, '\n');
    if i < a.len() {
        assert forall|j: int| 0 <= j < i implies s[j] != '\n' by {
            assert(s[j] == a[j]);
        }
        assert(s[i] == a[i]);
        lemma_find_char_unique(s, '\n', i);
        assert(s.take(i) =~= a.take(i));
        assert(s.skip(i + 1) =~= a.skip(i + 1) + seq!['\n'] + b);
        lemma_split_lines(a.skip(i + 1), b);
        assert(split(s, '\n') =~= split(a, '\n') + split(b, '\n'));
    } else {
        let n = a.len() as int;
        assert forall|j: int| 0 <= j < n implies s[j] != '\n' by {
            assert(s[j] == a[j]);
            assert(!a.contains('\n'));
            assert(a.contains(a[j]));
        }
        assert(s[n] == '\n');
        lemma_find_char_unique(s, '\n', n);
        assert(s.take(n) =~= a);
        assert(s.skip(n + 1) =~= b);
    }
}

proof fn lemma_lines_on(st: IniState, a: Seq<Seq<char>>, b: Seq<Seq<char>>, path: Seq<char>)
    ensures
        ini_lines(st, a + b, path) == (match ini_lines(st, a, path) {
            (now, None) => ini_lines(now, b, path),
            (now, Some(e)) => (now, Some(e)),
        }),
    decreases b.len(),
{
    if b.len() == 0 {
        assert(a + b =~= a);
    } else {
        lemma_lines_on(st, a, b.drop_last(), path);
        assert((a + b).drop_last() =~= a + b.drop_last());
        assert((a + b).last() == b.last());
    }
}

/// The lines of a file are read one after the other, from the state that the lines before
/// them left; the first error ends the reading, with what was read before it kept.
pub proof fn law_lines_in_order(i: InvView, a: Seq<char>, b: Seq<char>, line: Seq<char>, path: Seq<char>)
    requires
        !line.contains('\n'),
    ensures
        ({
            let st = ini_lines(ini_start(i), split(a, '\n'), path);
            let whole = ini_lines(ini_start(i), split(a + seq!['\n'] + line, '\n'), path);
            &&& ini_read(i, a, path) == (st.0.inv, st.1)
            &&& st.1 is None ==> whole == ini_line(st.0, trim(line), path)
            &&& st.1 is Some ==> ini_read(i, a + seq!['\n'] + b, path) == (st.0.inv, st.1)
        }),
{
    lemma_split_lines(a, line);
    lemma_split_lines(a, b);
    lemma_find_char(line, '\n');
    assert(split(line, '\n') =~= seq![line]);
    let st = ini_lines(ini_start(i), split(a, '\n'), path);
    lemma_lines_on(ini_start(i), split(a, '\n'), seq![line], path);
    lemma_lines_on(ini_start(i), split(a, '\n'), split(b, '\n'), path);
    assert(seq![line].drop_last() =~= Seq::empty());
    assert(ini_lines(st.0, Seq::empty(), path) == (st.0, None::<ErrorView>));
    assert(seq![line].last() == line);
}

// ---------------------------------------------------------------------------------------
// Comments, pending groups and headers that are none
// ---------------------------------------------------------------------------------------

/// A comment behind the name of a child changes nothing.
pub proof fn law_child_comments(st: IniState, c: Seq<char>, x: Seq<char>, path: Seq<char>)
    requires
        st.state == State::Children,
        is_entry(c),
        forall|k: int| 0 <= k < c.len() ==> !is_space(#[trigger] c[k]) && c[k] != '#',
    ensures
        ini_line(st, c + seq![' ', '#'] + x, path) == ini_line(st, c, path),
{
    let line = c + seq![' ', '#'] + x;
    let n = c.len() as int;
    let none = Seq::<char>::empty();
    assert(line[0] == c[0]);
    lemma_entry_is_no_section(c);
    lemma_entry_is_no_section(line);
    assert(line[n] == ' ' && line[n + 1] == '#');
    assert forall|j: int| 0 <= j < n + 1 implies line[j] != '#' by {
        if j < n {
            assert(line[j] == c[j]);
        }
    }
    lemma_find_char_unique(line, '#', n + 1);
    lemma_find_char_unique(c, '#', n);
    assert(line.take(n + 1) =~= none + c + seq![' ']);
    assert(c.take(n) =~= none + c + none);
    assert(!is_space(c[0]) && !is_space(c[n - 1]));
    lemma_trim_around(none, c, seq![' ']);
    lemma_trim_around(none, c, none);
    assert(uncommented(line) == c && uncommented(c) == c);
}

/// A line in brackets that names nothing, or holds white space, is an error and changes
/// nothing.
pub proof fn law_invalid_sections(st: IniState, x: Seq<char>, path: Seq<char>)
    requires
        !x.contains(']'),
        x.len() == 0 || exists|k: int| 0 <= k < x.len() && is_space(#[trigger] x[k]),
    ensures
        ini_line(st, seq!['['] + x + seq![']'], path).0 == st,
        ini_line(st, seq!['['] + x + seq![']'], path).1 is Some,
{
    let line = seq!['['] + x + seq![']'];
    let n = x.len() as int;
    assert forall|j: int| 0 <= j < n + 1 implies line[j] != ']' by {
        if j > 0 {
            assert(line[j] == x[j - 1]);
            assert(x.contains(x[j - 1]));
        }
    }
    assert(line[n + 1] == ']');
    lemma_find_char_unique(line, ']', n + 1);
    assert(line.subrange(1, n + 1) =~= x);
    assert(line[0] == '[' && line.last() == ']');
}

/// A group that is not there and is named as a child goes under the group of every section
/// that names it: each is kept in mind, in order.
pub proof fn law_children_are_kept_in_mind(st: IniState, c: Seq<char>, path: Seq<char>)
    requires
        st.state == State::Children,
        is_entry(c),
        forall|k: int| 0 <= k < c.len() ==> !is_space(#[trigger] c[k]) && c[k] != '#',
        !st.inv.groups.dom().contains(safe_name(c)),
    ensures
        ({
            let now = ini_line(st, c, path).0;
            let n = safe_name(c);
            &&& now.inv == st.inv
            &&& now.pending.dom().contains(n)
            &&& now.pending[n].parents == (if st.pending.dom().contains(n) {
                st.pending[n].parents.push(st.group)
            } else {
                seq![st.group]
            })
            &&& !st.pending.dom().contains(n) ==> now.pending[n].state == State::Children
            &&& st.pending.dom().contains(n) ==> now.pending[n].state == st.pending[n].state
        }),
{
    lemma_entry_is_no_section(c);
    lemma_child_name(c);
}

/// `c` is a child of `p` and stays one.
proof fn lemma_stays_under(i: InvView, j: InvView, p: Name, c: Name)
    requires
        adds(i, j),
        under(i, p, c),
    ensures
        under(j, p, c),
{
    let (a, b) = (i.groups[p].children, j.groups[p].children);
    assert(i.groups.dom().contains(p));
    assert(leads(a, b));
    let k = choose|k: int| 0 <= k < a.len() && a[k] == c;
    assert(b.take(a.len() as int)[k] == b[k]);
}

proof fn lemma_settled_under(
    i: InvView,
    p: PendingGroups,
    gone: Set<Name>,
    g: Name,
    ps: Seq<Name>,
    k: int,
)
    requires
        i.wf(),
        pending_wf(p),
        i.groups.dom().contains(g),
        forall|j: int| 0 <= j < ps.len() ==> is_safe(#[trigger] ps[j]),
        0 <= k < ps.len(),
        ps[k] != g,
    ensures
        under(settle_under(i, p, gone, g, ps).0, ps[k], g),
    decreases ps.len(),
{
    let q = ps[0];
    assert(is_safe(q));
    lemma_safe_name_fixed(q);
    let a = i.add_group(q);
    lemma_group_step(i, q);
    let linked = a.add_child(q, g);
    lemma_child_step(a, q, g);
    lemma_child_alike(a, q, g, g, q);
    let rest = ps.drop_first();
    assert forall|j: int| 0 <= j < rest.len() implies is_safe(#[trigger] rest[j]) by {
        assert(rest[j] == ps[j + 1]);
    }
    if p.dom().contains(q) && !gone.contains(q) && p[q].state == State::Children {
        let (j, s) = settle(linked, p, gone, q);
        lemma_no_more_pending(p.dom(), gone, s);
        lemma_settle(linked, p, gone, q);
        lemma_settle_under(j, p, gone.union(s), g, rest);
        if k == 0 {
            lemma_stays_under(linked, j, q, g);
            lemma_stays_under(j, settle_under(j, p, gone.union(s), g, rest).0, q, g);
        } else {
            assert(rest[k - 1] == ps[k]);
            lemma_settled_under(j, p, gone.union(s), g, rest, k - 1);
        }
    } else {
        lemma_settle_under(linked, p, gone, g, rest);
        if k == 0 {
            lemma_stays_under(linked, settle_under(linked, p, gone, g, rest).0, q, g);
        } else {
            assert(rest[k - 1] == ps[k]);
            lemma_settled_under(linked, p, gone, g, rest, k - 1);
        }
    }
}

/// A group that sections named as a child before it was there goes under each of their
/// groups, once a section header declares it.
pub proof fn law_declared_children(st: IniState, c: Seq<char>, k: int, path: Seq<char>)
    requires
        st.wf(),
        is_header_name(c),
        st.pending.dom().contains(safe_name(c)),
        st.pending[safe_name(c)].state == State::Children,
        0 <= k < st.pending[safe_name(c)].parents.len(),
        st.pending[safe_name(c)].parents[k] != safe_name(c),
    ensures
        ({
            let (now, e) = ini_line(st, header(c, None, None), path);
            &&& e is None
            &&& under(now.inv, st.pending[safe_name(c)].parents[k], safe_name(c))
        }),
{
    let n = safe_name(c);
    let p = st.pending;
    let none = Set::<Name>::empty();
    lemma_header(c, None, None);
    let line = header(c, None, None);
    assert(line[0] == '[');
    lemma_safe_name_is_safe(c);
    lemma_safe_name_fixed(c);
    lemma_safe_name_fixed(n);
    let inv = st.inv.add_group(n);
    lemma_group_step(st.inv, n);
    lemma_fewer_pending(p.dom(), none, none.insert(n), n);
    assert(inv.add_group(n) == inv);
    let ps = p[n].parents;
    assert forall|j: int| 0 <= j < ps.len() implies is_safe(#[trigger] ps[j]) by {
        assert(is_safe(p[n].parents[j]));
    }
    lemma_settled_under(inv, p, none.insert(n), n, ps, k);
    assert(settle(inv, p, none, n) == settle_under(inv, p, none.insert(n), n, ps));
}

// ---------------------------------------------------------------------------------------
// Backslashes
// ---------------------------------------------------------------------------------------

/// Characters that words are made of, without quotes and backslashes.
pub open spec fn is_plain_run(w: Seq<char>) -> bool {
    forall|k: int|
        0 <= k < w.len() ==> !is_space(#[trigger] w[k]) && w[k] != '\'' && w[k] != '"' && w[k]
            != '\\'
}

proof fn lemma_run(s: Seq<char>, p: int, w: Seq<char>, cur: Seq<char>, k: int)
    requires
        is_plain_run(w),
        0 <= p,
        p + w.len() <= s.len(),
        0 <= k <= w.len(),
        forall|j: int| 0 <= j < w.len() ==> s[p + j] == w[j],
    ensures
        words(s, p + k, Some(cur + w.take(k))) == words(s, p + w.len(), Some(cur + w)),
    decreases w.len() - k,
{
    if k < w.len() {
        assert(s[p + k] == w[k]);
        assert((cur + w.take(k)).push(w[k]) =~= cur + w.take(k + 1));
        lemma_run(s, p, w, cur, k + 1);
    } else {
        assert(w.take(k) =~= w);
    }
}

/// Outside of quotes a backslash takes the character behind it into the word, whatever it
/// is.
pub proof fn law_escaped_characters(a: Seq<char>, c: char, b: Seq<char>)
    requires
        is_plain_part(a),
        is_plain_run(b),
    ensures
        words(a + seq!['\\', c] + b, 0, None) == seq![a + seq![c] + b],
{
    let s = a + seq!['\\', c] + b;
    let n = a.len() as int;
    let none = Seq::<char>::empty();
    assert(s.take(n) =~= a);
    assert(s[0] == a[0]);
    assert(none.push(s[0]) =~= a.take(1));
    lemma_part(s, a, 1);
    assert(s[n] == '\\' && s[n + 1] == c);
    assert(a.push(c) =~= a + seq![c]);
    assert forall|j: int| 0 <= j < b.len() implies s[n + 2 + j] == b[j] by {}
    lemma_run(s, n + 2, b, a + seq![c], 0);
    assert(a + seq![c] + b.take(0) =~= a + seq![c]);
    assert(words(s, s.len() as int, Some(a + seq![c] + b)) =~= seq![a + seq![c] + b]);
}

proof fn lemma_quoted_run(s: Seq<char>, p: int, w: Seq<char>, k: int)
    requires
        !w.contains('"'),
        !w.contains('\\'),
        0 <= p,
        p + w.len() <= s.len(),
        0 <= k <= w.len(),
        forall|j: int| 0 <= j < w.len() ==> s[p + j] == w[j],
    ensures
        double_quoted(s, p + k) == (
            w.skip(k) + double_quoted(s, p + w.len()).0,
            double_quoted(s, p + w.len()).1,
        ),
    decreases w.len() - k,
{
    let rest = double_quoted(s, p + w.len()).0;
    if k < w.len() {
        assert(s[p + k] == w[k]);
        assert(w.contains(w[k]));
        lemma_quoted_run(s, p, w, k + 1);
        assert(seq![w[k]] + (w.skip(k + 1) + rest) =~= w.skip(k) + rest);
    } else {
        assert(w.skip(k) + rest =~= rest);
    }
}

/// Between double quotes a backslash takes the character behind it as it is, a quote too.
pub proof fn law_escapes_in_quotes(a: Seq<char>, c: char, b: Seq<char>)
    requires
        !a.contains('"'),
        !a.contains('\\'),
        !b.contains('"'),
        !b.contains('\\'),
    ensures
        words(seq!['"'] + a + seq!['\\', c] + b + seq!['"'], 0, None) == seq![a + seq![c] + b],
{
    let s = seq!['"'] + a + seq!['\\', c] + b + seq!['"'];
    let n = a.len() as int;
    let m = b.len() as int;
    let none = Seq::<char>::empty();
    assert(s[0] == '"' && s[1 + n] == '\\' && s[2 + n] == c && s[3 + n + m] == '"');
    assert forall|j: int| 0 <= j < n implies s[1 + j] == a[j] by {}
    assert forall|j: int| 0 <= j < m implies s[3 + n + j] == b[j] by {}
    lemma_quoted_run(s, 1, a, 0);
    lemma_quoted_run(s, 3 + n, b, 0);
    assert(double_quoted(s, 3 + n + m) == (none, 4 + n + m));
    assert(b.skip(0) + none =~= b);
    assert(double_quoted(s, 3 + n) == (b, 4 + n + m));
    assert(double_quoted(s, 1 + n) == (seq![c] + b, 4 + n + m));
    let t = a + seq![c] + b;
    assert(a.skip(0) + (seq![c] + b) =~= t);
    assert(none + t =~= t);
    assert(words(s, s.len() as int, Some(t)) =~= seq![t]);
    assert(words(s, 0, None) == words(s, 4 + n + m, Some(none + t)));
}

} // verus!
