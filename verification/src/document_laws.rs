//! What documents and scripts' lists say of groups, and what an inventory holds of it: the
//! hosts of each group and the groups under each group, these and no others.

use vstd::prelude::*;
use crate::assoc::{get, holds, lemma_pos, lemma_pos_unique, pos, Name};
use crate::construct_laws::{in_group, lemma_joined_hosts, lemma_linked_hosts};
use crate::growth::{adds, all_hosts, lemma_child_step, lemma_group_step, lemma_grows, lemma_ingest_child_list, lemma_ingest_child_map, lemma_ingest_groups, lemma_ingest_host_list, lemma_ingest_host_map, lemma_ingest_vars, lemma_list_groups, lemma_list_hosts};
use crate::model::{lemma_deepen, lemma_link_wf, lemma_with_name, with_name, InvView};
use crate::parse::{as_map, ingest_child_list, ingest_child_map, ingest_document, ingest_group, ingest_groups, ingest_host, ingest_host_list, ingest_host_map, ingest_hosts, ingest_vars};
use crate::sanitize::safe_name;
use crate::script::{host_vars_set, ingest_list, list_group, list_groups, list_hosts, meta_of, meta_set, normalized};
use crate::value::{ValueView, VarsView};

verus! {

// ---------------------------------------------------------------------------------------
// What is said
// ---------------------------------------------------------------------------------------

/// A map has an entry of this name.
pub open spec fn has_key(o: VarsView, n: Name) -> bool {
    exists|k: int| 0 <= k < o.len() && (#[trigger] o[k]).0 == n
}

/// The definition of a group lists a host: by its name, or with its variables.
pub open spec fn lists_host(def: ValueView, h: Name) -> bool {
    match def {
        ValueView::Dict(o) => match get(o, "hosts"@) {
            Some(ValueView::List(a)) => a.contains(ValueView::Text(h)),
            Some(ValueView::Dict(m)) => has_key(m, h),
            _ => false,
        },
        _ => false,
    }
}

/// A list has a text whose safe form is `c`.
pub open spec fn has_group(a: Seq<ValueView>, c: Name) -> bool {
    exists|k: int|
        0 <= k < a.len() && (#[trigger] a[k]) is Text && safe_name(a[k]->Text_0) == c
}

/// The definition of a group names a child: in a list, or with its definition.
pub open spec fn lists_child(def: ValueView, c: Name) -> bool {
    match def {
        ValueView::Dict(o) => match get(o, "children"@) {
            Some(ValueView::List(a)) => has_group(a, c),
            Some(ValueView::Dict(m)) => exists|k: int|
                0 <= k < m.len() && safe_name((#[trigger] m[k]).0) == c,
            _ => false,
        },
        _ => false,
    }
}

/// The definition of group `g`, or one within it, lists host `h` for group `q`.
pub open spec fn places(def: ValueView, g: Name, h: Name, q: Name) -> bool
    decreases def, 1nat,
{
    ||| q == g && lists_host(def, h)
    ||| match def {
        ValueView::Dict(o) => if 0 <= pos(o, "children"@) < o.len() {
            match o[pos(o, "children"@)].1 {
                ValueView::Dict(c) => some_places(c, c.len(), h, q),
                _ => false,
            }
        } else {
            false
        },
        _ => false,
    }
}

/// One of the first `n` definitions lists host `h` for group `q`.
pub open spec fn some_places(c: VarsView, n: nat, h: Name, q: Name) -> bool
    decreases c, n,
{
    0 < n <= c.len() && (places(c[n - 1].1, safe_name(c[n - 1].0), h, q) || some_places(
        c,
        (n - 1) as nat,
        h,
        q,
    ))
}

/// The definition of group `g`, or one within it, names group `c` as a child of group `p`.
pub open spec fn relates(def: ValueView, g: Name, p: Name, c: Name) -> bool
    decreases def, 1nat,
{
    ||| p == g && c != g && lists_child(def, c)
    ||| match def {
        ValueView::Dict(o) => if 0 <= pos(o, "children"@) < o.len() {
            match o[pos(o, "children"@)].1 {
                ValueView::Dict(m) => some_relate(m, m.len(), p, c),
                _ => false,
            }
        } else {
            false
        },
        _ => false,
    }
}

/// One of the first `n` definitions names group `c` as a child of group `p`.
pub open spec fn some_relate(m: VarsView, n: nat, p: Name, c: Name) -> bool
    decreases m, n,
{
    0 < n <= m.len() && (relates(m[n - 1].1, safe_name(m[n - 1].0), p, c) || some_relate(
        m,
        (n - 1) as nat,
        p,
        c,
    ))
}

/// `c` is a child of `p`.
pub open spec fn under(i: InvView, p: Name, c: Name) -> bool {
    i.groups.dom().contains(p) && i.groups[p].children.contains(c)
}

// ---------------------------------------------------------------------------------------
// Steps
// ---------------------------------------------------------------------------------------

/// The same hosts in the same groups, under the same groups.
spec fn alike(i: InvView, j: InvView, x: Name, q: Name) -> bool {
    (in_group(j, x, q) <==> in_group(i, x, q)) && (under(j, q, x) <==> under(i, q, x))
}

proof fn lemma_group_alike(i: InvView, raw: Name, x: Name, q: Name)
    ensures
        alike(i, i.add_group(raw), x, q),
{
}

proof fn lemma_host_alike(i: InvView, g: Name, h: Name, x: Name, q: Name)
    requires
        i.groups.dom().contains(g),
    ensures
        in_group(i.add_host(h).add_host_to_group(h, g), x, q) <==> in_group(i, x, q) || (x == h && q
            == g),
        under(i.add_host(h).add_host_to_group(h, g), q, x) <==> under(i, q, x),
{
    let a = i.add_host(h);
    assert(a.groups == i.groups);
    lemma_joined_hosts(a, h, g, x, q);
}

pub(crate) proof fn lemma_child_alike(i: InvView, p: Name, c: Name, x: Name, q: Name)
    requires
        i.wf(),
        i.groups.dom().contains(p),
        i.groups.dom().contains(c),
    ensures
        in_group(i.add_child(p, c), x, q) <==> in_group(i, x, q),
        under(i.add_child(p, c), q, x) <==> under(i, q, x) || (q == p && x == c && p != c),
{
    lemma_linked_hosts(i, p, c, x, q);
    if p != c {
        lemma_link_wf(i, p, c);
        let b = i.link(p, c);
        lemma_deepen(b, p, c);
        lemma_with_name(i.groups[p].children, c);
        assert(b.groups.dom() =~= i.groups.dom());
        if i.groups.dom().contains(q) {
            assert(b.groups.dom().contains(q));
            if q == p {
                assert(b.groups[p].children == with_name(i.groups[p].children, c));
            } else {
                assert(b.groups[q].children == i.groups[q].children);
            }
        }
    }
}

proof fn lemma_var_alike(i: InvView, g: Name, k: Name, v: ValueView, x: Name, q: Name)
    requires
        i.groups.dom().contains(g),
    ensures
        alike(i, i.set_group_var(g, k, v), x, q),
{
}

proof fn lemma_vars_alike(i: InvView, g: Name, o: VarsView, n: nat, x: Name, q: Name)
    requires
        i.wf(),
        i.groups.dom().contains(g),
    ensures
        alike(i, ingest_vars(i, g, o, n), x, q),
    decreases n,
{
    if 0 < n <= o.len() {
        let j = ingest_vars(i, g, o, (n - 1) as nat);
        lemma_ingest_vars(i, g, o, (n - 1) as nat);
        lemma_vars_alike(i, g, o, (n - 1) as nat, x, q);
        lemma_var_alike(j, g, o[n - 1].0, o[n - 1].1, x, q);
    }
}

// ---------------------------------------------------------------------------------------
// Documents
// ---------------------------------------------------------------------------------------

proof fn lemma_ingested_host(
    i: InvView,
    g: Name,
    h: Name,
    vars: Option<VarsView>,
    x: Name,
    q: Name,
)
    requires
        i.wf(),
        i.groups.dom().contains(g),
    ensures
        in_group(ingest_host(i, g, h, vars), x, q) <==> in_group(i, x, q) || (x == h && q == g),
        under(ingest_host(i, g, h, vars), q, x) <==> under(i, q, x),
{
    lemma_host_alike(i, g, h, x, q);
    let j = i.add_host(h).add_host_to_group(h, g);
    assert(ingest_host(i, g, h, vars).groups == j.groups);
}

proof fn lemma_host_list(i: InvView, g: Name, a: Seq<ValueView>, n: nat, x: Name, q: Name)
    requires
        i.wf(),
        i.groups.dom().contains(g),
        n <= a.len(),
    ensures
        in_group(ingest_host_list(i, g, a, n), x, q) <==> in_group(i, x, q) || (q == g && a.take(
            n as int,
        ).contains(ValueView::Text(x))),
        under(ingest_host_list(i, g, a, n), q, x) <==> under(i, q, x),
    decreases n,
{
    if n > 0 {
        let j = ingest_host_list(i, g, a, (n - 1) as nat);
        lemma_ingest_host_list(i, g, a, (n - 1) as nat);
        lemma_host_list(i, g, a, (n - 1) as nat, x, q);
        assert(a.take(n as int) =~= a.take(n - 1).push(a[n - 1]));
        lemma_pushed(a.take(n - 1), a[n - 1], ValueView::Text(x));
        if let ValueView::Text(h) = a[n - 1] {
            lemma_ingested_host(j, g, h, None, x, q);
        }
    }
}

proof fn lemma_pushed<A>(s: Seq<A>, x: A, y: A)
    ensures
        s.push(x).contains(y) <==> s.contains(y) || y == x,
{
    if s.contains(y) {
        let k = choose|k: int| 0 <= k < s.len() && s[k] == y;
        assert(s.push(x)[k] == y);
    }
    assert(s.push(x)[s.len() as int] == x);
    if s.push(x).contains(y) {
        let k = choose|k: int| 0 <= k < s.push(x).len() && s.push(x)[k] == y;
        if k < s.len() {
            assert(s[k] == y);
        }
    }
}

proof fn lemma_host_map(i: InvView, g: Name, o: VarsView, n: nat, x: Name, q: Name)
    requires
        i.wf(),
        i.groups.dom().contains(g),
        n <= o.len(),
    ensures
        in_group(ingest_host_map(i, g, o, n), x, q) <==> in_group(i, x, q) || (q == g && has_key(
            o.take(n as int),
            x,
        )),
        under(ingest_host_map(i, g, o, n), q, x) <==> under(i, q, x),
    decreases n,
{
    if n > 0 {
        let j = ingest_host_map(i, g, o, (n - 1) as nat);
        lemma_ingest_host_map(i, g, o, (n - 1) as nat);
        lemma_host_map(i, g, o, (n - 1) as nat, x, q);
        lemma_ingested_host(j, g, o[n - 1].0, as_map(o[n - 1].1), x, q);
        let (s, t) = (o.take(n - 1), o.take(n as int));
        assert(t[n - 1] == o[n - 1]);
        if has_key(s, x) {
            let k = choose|k: int| 0 <= k < s.len() && (#[trigger] s[k]).0 == x;
            assert(t[k] == s[k]);
        }
        if has_key(t, x) {
            let k = choose|k: int| 0 <= k < t.len() && (#[trigger] t[k]).0 == x;
            if k < n - 1 {
                assert(s[k] == t[k]);
            }
        }
    }
}

proof fn lemma_child_list(i: InvView, g: Name, a: Seq<ValueView>, n: nat, x: Name, q: Name)
    requires
        i.wf(),
        i.groups.dom().contains(g),
        n <= a.len(),
    ensures
        in_group(ingest_child_list(i, g, a, n), x, q) <==> in_group(i, x, q),
        under(ingest_child_list(i, g, a, n), q, x) <==> under(i, q, x) || (q == g && x != g
            && has_group(a.take(n as int), x)),
    decreases n,
{
    if n > 0 {
        let j = ingest_child_list(i, g, a, (n - 1) as nat);
        lemma_ingest_child_list(i, g, a, (n - 1) as nat);
        lemma_child_list(i, g, a, (n - 1) as nat, x, q);
        if let ValueView::Text(c) = a[n - 1] {
            lemma_group_step(j, c);
            lemma_group_alike(j, c, x, q);
            lemma_child_alike(j.add_group(c), g, safe_name(c), x, q);
        }
        let (s, t) = (a.take(n - 1), a.take(n as int));
        assert(t[n - 1] == a[n - 1]);
        if has_group(s, x) {
            let k = choose|k: int|
                0 <= k < s.len() && (#[trigger] s[k]) is Text && safe_name(s[k]->Text_0) == x;
            assert(t[k] == s[k]);
        }
        if has_group(t, x) {
            let k = choose|k: int|
                0 <= k < t.len() && (#[trigger] t[k]) is Text && safe_name(t[k]->Text_0) == x;
            if k < n - 1 {
                assert(s[k] == t[k]);
            }
        }
    }
}

/// A group's definition puts the hosts it lists into the group, and the children it names
/// under it, and those of the definitions within it; nothing else.
proof fn lemma_definition(
    i: InvView,
    raw: Name,
    def: ValueView,
    parent: Option<Name>,
    x: Name,
    q: Name,
)
    requires
        i.wf(),
        parent matches Some(p) ==> i.groups.dom().contains(p),
    ensures
        in_group(ingest_group(i, raw, def, parent), x, q) <==> in_group(i, x, q) || places(
            def,
            safe_name(raw),
            x,
            q,
        ),
        under(ingest_group(i, raw, def, parent), q, x) <==> under(i, q, x) || (parent == Some(q)
            && x == safe_name(raw) && x != q) || relates(def, safe_name(raw), q, x),
    decreases def, 1nat,
{
    let g = safe_name(raw);
    let made = i.add_group(raw);
    lemma_group_step(i, raw);
    lemma_group_alike(i, raw, x, q);
    let linked = match parent {
        Some(p) => made.add_child(p, g),
        None => made,
    };
    if let Some(p) = parent {
        lemma_child_step(made, p, g);
        lemma_child_alike(made, p, g, x, q);
    }
    assert(linked.wf() && linked.groups.dom().contains(g));
    if let ValueView::Dict(o) = def {
        let with_hosts = match get(o, "hosts"@) {
            Some(v) => ingest_hosts(linked, g, v),
            None => linked,
        };
        lemma_grows(linked, linked, linked);
        match get(o, "hosts"@) {
            Some(ValueView::Dict(m)) => {
                lemma_ingest_host_map(linked, g, m, m.len());
                lemma_host_map(linked, g, m, m.len(), x, q);
                assert(m.take(m.len() as int) =~= m);
            },
            Some(ValueView::List(a)) => {
                lemma_ingest_host_list(linked, g, a, a.len());
                lemma_host_list(linked, g, a, a.len(), x, q);
                assert(a.take(a.len() as int) =~= a);
            },
            _ => {},
        }
        assert(adds(linked, with_hosts));
        assert(in_group(with_hosts, x, q) <==> in_group(linked, x, q) || (q == g && lists_host(
            def,
            x,
        )));
        let with_vars = match get(o, "vars"@) {
            Some(ValueView::Dict(v)) => ingest_vars(with_hosts, g, v, v.len()),
            _ => with_hosts,
        };
        lemma_grows(with_hosts, with_hosts, with_hosts);
        if let Some(ValueView::Dict(v)) = get(o, "vars"@) {
            lemma_ingest_vars(with_hosts, g, v, v.len());
            lemma_vars_alike(with_hosts, g, v, v.len(), x, q);
        }
        assert(adds(with_hosts, with_vars));
        assert(alike(with_hosts, with_vars, x, q));
        let at = pos(o, "children"@);
        let done = ingest_group(i, raw, def, parent);
        lemma_pos(o, "children"@);
        if 0 <= at < o.len() {
            assert(get(o, "children"@) == Some(o[at].1));
            match o[at].1 {
                ValueView::Dict(c) => {
                    assert(decreases_to!(def => c));
                    assert(lists_child(def, x) <==> some_named(c, c.len() as int, x));
                    assert(relates(def, g, q, x) <==> (q == g && x != g && lists_child(def, x))
                        || some_relate(c, c.len(), q, x));
                    lemma_definitions(with_vars, g, c, c.len(), x, q);
                    assert(done == ingest_child_map(with_vars, g, c, c.len()));
                    assert(c.take(c.len() as int) =~= c);
                },
                ValueView::List(a) => {
                    lemma_child_list(with_vars, g, a, a.len(), x, q);
                    assert(done == ingest_child_list(with_vars, g, a, a.len()));
                    assert(a.take(a.len() as int) =~= a);
                },
                _ => {
                    assert(done == with_vars);
                },
            }
        } else {
            assert(done == with_vars);
        }
    }
}

/// The first `n` definitions name a child.
spec fn some_named(c: VarsView, n: int, x: Name) -> bool {
    exists|k: int| 0 <= k < n && safe_name((#[trigger] c[k]).0) == x
}

proof fn lemma_definitions(i: InvView, g: Name, c: VarsView, n: nat, x: Name, q: Name)
    requires
        i.wf(),
        i.groups.dom().contains(g),
        n <= c.len(),
    ensures
        in_group(ingest_child_map(i, g, c, n), x, q) <==> in_group(i, x, q) || some_places(
            c,
            n,
            x,
            q,
        ),
        under(ingest_child_map(i, g, c, n), q, x) <==> under(i, q, x) || (q == g && x != g
            && some_named(c, n as int, x)) || some_relate(c, n, q, x),
    decreases c, n,
{
    if n > 0 {
        let j = ingest_child_map(i, g, c, (n - 1) as nat);
        let e = c[n - 1];
        lemma_ingest_child_map(i, g, c, (n - 1) as nat);
        lemma_definitions(i, g, c, (n - 1) as nat, x, q);
        lemma_definition(j, e.0, e.1, Some(g), x, q);
        if some_named(c, n - 1, x) {
            let k = choose|k: int| 0 <= k < n - 1 && safe_name((#[trigger] c[k]).0) == x;
            assert(safe_name(c[k].0) == x);
        }
        assert(some_named(c, n as int, x) <==> some_named(c, n - 1, x) || safe_name(e.0) == x);
    }
}

proof fn lemma_groups(i: InvView, o: VarsView, n: nat, x: Name, q: Name)
    requires
        i.wf(),
        n <= o.len(),
    ensures
        in_group(ingest_groups(i, o, n), x, q) <==> in_group(i, x, q) || some_places(o, n, x, q),
        under(ingest_groups(i, o, n), q, x) <==> under(i, q, x) || some_relate(o, n, q, x),
    decreases n,
{
    if n > 0 {
        let j = ingest_groups(i, o, (n - 1) as nat);
        lemma_ingest_groups(i, o, (n - 1) as nat);
        lemma_groups(i, o, (n - 1) as nat, x, q);
        lemma_definition(j, o[n - 1].0, o[n - 1].1, None, x, q);
    }
}

/// A document puts a host into a group where the group's definition lists it, at the top or
/// within others, by its name or with its variables; and nothing else puts it there.
pub proof fn law_document_hosts(i: InvView, o: VarsView, path: Seq<char>, h: Name, g: Name)
    requires
        i.wf(),
    ensures
        in_group(ingest_document(i, ValueView::Dict(o), path).0, h, g) <==> in_group(i, h, g)
            || some_places(o, o.len(), h, g),
{
    lemma_groups(i, o, o.len(), h, g);
}

/// A document puts a group under another where the other's definition names it as a child,
/// in a list or with its definition; and nothing else puts it there.
pub proof fn law_document_children(i: InvView, o: VarsView, path: Seq<char>, p: Name, c: Name)
    requires
        i.wf(),
    ensures
        under(ingest_document(i, ValueView::Dict(o), path).0, p, c) <==> under(i, p, c)
            || some_relate(o, o.len(), p, c),
{
    lemma_groups(i, o, o.len(), c, p);
}

// ---------------------------------------------------------------------------------------
// Scripts
// ---------------------------------------------------------------------------------------

/// The group of a script's list holds a host: a list of hosts does, so does a map with one
/// under `hosts`; a map of variables stands for a host of the group's name.
pub open spec fn script_lists(group: Name, data: ValueView, h: Name) -> bool {
    match data {
        ValueView::List(a) => a.contains(ValueView::Text(h)),
        ValueView::Dict(o) => if has_key(o, "hosts"@) || has_key(o, "vars"@) || has_key(
            o,
            "children"@,
        ) {
            match get(o, "hosts"@) {
                Some(ValueView::List(a)) => a.contains(ValueView::Text(h)),
                _ => false,
            }
        } else {
            h == group
        },
        _ => false,
    }
}

/// The group of a script's list names a child.
pub open spec fn script_child(data: ValueView, c: Name) -> bool {
    match data {
        ValueView::Dict(o) => match get(o, "children"@) {
            Some(ValueView::List(a)) => has_group(a, c),
            _ => false,
        },
        _ => false,
    }
}

/// One of the first `n` groups of a script's list, `_meta` aside, is `g` and holds `h`.
pub open spec fn script_places(o: VarsView, n: int, h: Name, g: Name) -> bool {
    exists|k: int|
        0 <= k < n && (#[trigger] o[k]).0 != "_meta"@ && safe_name(o[k].0) == g && script_lists(
            o[k].0,
            o[k].1,
            h,
        )
}

/// One of the first `n` groups of a script's list, `_meta` aside, is `p` and names `c`.
pub open spec fn script_relates(o: VarsView, n: int, p: Name, c: Name) -> bool {
    exists|k: int|
        0 <= k < n && (#[trigger] o[k]).0 != "_meta"@ && safe_name(o[k].0) == p && p != c
            && script_child(o[k].1, c)
}

proof fn lemma_script_hosts(
    i: InvView,
    seen: Seq<Name>,
    g: Name,
    a: Seq<ValueView>,
    n: nat,
    x: Name,
    q: Name,
)
    requires
        i.wf(),
        all_hosts(i, seen),
        i.groups.dom().contains(g),
        n <= a.len(),
    ensures
        in_group(list_hosts(i, seen, g, a, n).0, x, q) <==> in_group(i, x, q) || (q == g && a.take(
            n as int,
        ).contains(ValueView::Text(x))),
        under(list_hosts(i, seen, g, a, n).0, q, x) <==> under(i, q, x),
        list_hosts(i, seen, g, a, n).1.contains(x) <==> seen.contains(x) || a.take(
            n as int,
        ).contains(ValueView::Text(x)),
    decreases n,
{
    if n > 0 {
        let (j, s) = list_hosts(i, seen, g, a, (n - 1) as nat);
        lemma_list_hosts(i, seen, g, a, (n - 1) as nat);
        lemma_script_hosts(i, seen, g, a, (n - 1) as nat, x, q);
        assert(a.take(n as int) =~= a.take(n - 1).push(a[n - 1]));
        lemma_pushed(a.take(n - 1), a[n - 1], ValueView::Text(x));
        if let ValueView::Text(h) = a[n - 1] {
            lemma_host_alike(j, g, h, x, q);
            lemma_with_name(s, h);
        }
    } else {
        assert(a.take(0) =~= Seq::empty());
    }
}

proof fn lemma_normalized(group: Name, data: ValueView, h: Name, c: Name)
    ensures
        script_lists(group, data, h) <==> (match get(normalized(group, data), "hosts"@) {
            Some(ValueView::List(a)) => a.contains(ValueView::Text(h)),
            _ => false,
        }),
        script_child(data, c) <==> (match get(normalized(group, data), "children"@) {
            Some(ValueView::List(a)) => has_group(a, c),
            _ => false,
        }),
{
    reveal_strlit("hosts");
    reveal_strlit("vars");
    reveal_strlit("children");
    assert("hosts"@.len() == 5 && "vars"@.len() == 4 && "children"@.len() == 8);
    let t = seq![ValueView::Text(group)];
    assert(t[0] == ValueView::Text(group));
    assert(t.contains(ValueView::Text(h)) <==> h == group);
    match data {
        ValueView::Dict(o) => {
            lemma_key(o, "hosts"@);
            lemma_key(o, "vars"@);
            lemma_key(o, "children"@);
            let s = seq![
                ("hosts"@, ValueView::List(t)),
                ("vars"@, ValueView::Dict(o)),
            ];
            assert(s[0].0 == "hosts"@ && s[1].0 == "vars"@);
            lemma_pos_unique(s, "hosts"@, 0);
            lemma_pos_unique(s, "children"@, 2);
            assert(get(s, "hosts"@) == Some(ValueView::List(t)));
            assert(get(s, "children"@) is None);
        },
        _ => {
            let s = seq![("hosts"@, data)];
            assert(s[0].0 == "hosts"@);
            lemma_pos_unique(s, "hosts"@, 0);
            lemma_pos_unique(s, "children"@, 1);
            assert(get(s, "hosts"@) == Some(data));
            assert(get(s, "children"@) is None);
        },
    }
}

proof fn lemma_key(o: VarsView, n: Name)
    ensures
        holds(o, n) <==> has_key(o, n),
{
    lemma_pos(o, n);
    if holds(o, n) {
        assert(o[pos(o, n)].0 == n);
    }
    if has_key(o, n) {
        let k = choose|k: int| 0 <= k < o.len() && (#[trigger] o[k]).0 == n;
        assert(o[k].0 == n);
    }
}

proof fn lemma_script_group(
    i: InvView,
    seen: Seq<Name>,
    group: Name,
    data: ValueView,
    x: Name,
    q: Name,
)
    requires
        i.wf(),
        all_hosts(i, seen),
    ensures
        in_group(list_group(i, seen, group, data).0, x, q) <==> in_group(i, x, q) || (q
            == safe_name(group) && script_lists(group, data, x)),
        under(list_group(i, seen, group, data).0, q, x) <==> under(i, q, x) || (q == safe_name(
            group,
        ) && x != q && script_child(data, x)),
        list_group(i, seen, group, data).1.contains(x) <==> seen.contains(x) || script_lists(
            group,
            data,
            x,
        ),
{
    let g = safe_name(group);
    let o = normalized(group, data);
    let m = i.add_group(group);
    lemma_normalized(group, data, x, x);
    lemma_group_step(i, group);
    lemma_group_alike(i, group, x, q);
    lemma_grows(m, m, m);
    assert(all_hosts(m, seen));
    let (a, s) = match get(o, "hosts"@) {
        Some(ValueView::List(l)) => list_hosts(m, seen, g, l, l.len()),
        _ => (m, seen),
    };
    if let Some(ValueView::List(l)) = get(o, "hosts"@) {
        lemma_list_hosts(m, seen, g, l, l.len());
        lemma_script_hosts(m, seen, g, l, l.len(), x, q);
        assert(l.take(l.len() as int) =~= l);
    }
    assert(adds(m, a));
    lemma_grows(a, a, a);
    let b = match get(o, "vars"@) {
        Some(ValueView::Dict(v)) => ingest_vars(a, g, v, v.len()),
        _ => a,
    };
    if let Some(ValueView::Dict(v)) = get(o, "vars"@) {
        lemma_ingest_vars(a, g, v, v.len());
        lemma_vars_alike(a, g, v, v.len(), x, q);
    }
    assert(adds(a, b));
    assert(alike(a, b, x, q));
    if let Some(ValueView::List(l)) = get(o, "children"@) {
        lemma_child_list(b, g, l, l.len(), x, q);
        assert(l.take(l.len() as int) =~= l);
    }
}

proof fn lemma_script_groups(i: InvView, o: VarsView, n: nat, x: Name, q: Name)
    requires
        i.wf(),
        n <= o.len(),
    ensures
        in_group(list_groups(i, o, n).0, x, q) <==> in_group(i, x, q) || script_places(
            o,
            n as int,
            x,
            q,
        ),
        under(list_groups(i, o, n).0, q, x) <==> under(i, q, x) || script_relates(
            o,
            n as int,
            q,
            x,
        ),
        list_groups(i, o, n).1.contains(x) <==> exists|g: Name| script_places(o, n as int, x, g),
    decreases n,
{
    if n > 0 {
        let (j, s) = list_groups(i, o, (n - 1) as nat);
        let e = o[n - 1];
        let m: int = n - 1;
        let all: int = n as int;
        lemma_list_groups(i, o, (n - 1) as nat);
        lemma_script_groups(i, o, (n - 1) as nat, x, q);
        if e.0 != "_meta"@ {
            lemma_script_group(j, s, e.0, e.1, x, q);
        }
        assert forall|g: Name| #[trigger]
            script_places(o, all, x, g) == (script_places(o, m, x, g) || (e.0 != "_meta"@
                && safe_name(e.0) == g && script_lists(e.0, e.1, x))) by {
            lemma_one_more_place(o, all, x, g);
        }
        lemma_one_more_child(o, all, q, x);
        if e.0 != "_meta"@ && script_lists(e.0, e.1, x) {
            assert(script_places(o, all, x, safe_name(e.0)));
        }
        if exists|g: Name| script_places(o, m, x, g) {
            let g = choose|g: Name| script_places(o, m, x, g);
            assert(script_places(o, all, x, g));
        }
        if exists|g: Name| script_places(o, all, x, g) {
            let g = choose|g: Name| script_places(o, all, x, g);
            assert(script_places(o, m, x, g) || (e.0 != "_meta"@ && script_lists(e.0, e.1, x)));
        }
    }
}

proof fn lemma_one_more_place(o: VarsView, n: int, x: Name, g: Name)
    requires
        0 < n,
    ensures
        script_places(o, n, x, g) == (script_places(o, n - 1, x, g) || (o[n - 1].0 != "_meta"@
            && safe_name(o[n - 1].0) == g && script_lists(o[n - 1].0, o[n - 1].1, x))),
{
    if script_places(o, n - 1, x, g) {
        let k = choose|k: int|
            0 <= k < n - 1 && (#[trigger] o[k]).0 != "_meta"@ && safe_name(o[k].0) == g
                && script_lists(o[k].0, o[k].1, x);
        assert(o[k].0 != "_meta"@);
    }
}

proof fn lemma_one_more_child(o: VarsView, n: int, p: Name, c: Name)
    requires
        0 < n,
    ensures
        script_relates(o, n, p, c) == (script_relates(o, n - 1, p, c) || (o[n - 1].0 != "_meta"@
            && safe_name(o[n - 1].0) == p && p != c && script_child(o[n - 1].1, c))),
{
    if script_relates(o, n - 1, p, c) {
        let k = choose|k: int|
            0 <= k < n - 1 && (#[trigger] o[k]).0 != "_meta"@ && safe_name(o[k].0) == p && p != c
                && script_child(o[k].1, c);
        assert(o[k].0 != "_meta"@);
    }
}

proof fn lemma_host_vars_alike(i: InvView, h: Name, vars: VarsView, n: nat, x: Name, q: Name)
    ensures
        alike(i, host_vars_set(i, h, vars, n), x, q),
    decreases n,
{
    if 0 < n <= vars.len() {
        lemma_host_vars_alike(i, h, vars, (n - 1) as nat, x, q);
    }
}

proof fn lemma_meta_alike(i: InvView, hs: Seq<Name>, meta: VarsView, n: nat, x: Name, q: Name)
    ensures
        alike(i, meta_set(i, hs, meta, n), x, q),
    decreases n,
{
    if 0 < n <= hs.len() {
        let j = meta_set(i, hs, meta, (n - 1) as nat);
        lemma_meta_alike(i, hs, meta, (n - 1) as nat, x, q);
        if let Some(ValueView::Dict(o)) = get(meta, hs[n - 1]) {
            lemma_host_vars_alike(j, hs[n - 1], o, o.len(), x, q);
        }
    }
}

/// A script's list puts a host into a group where the group holds it, and nothing else does.
pub proof fn law_script_hosts(i: InvView, o: VarsView, path: Seq<char>, h: Name, g: Name)
    requires
        i.wf(),
    ensures
        in_group(ingest_list(i, ValueView::Dict(o), path).0, h, g) <==> in_group(i, h, g)
            || script_places(o, o.len() as int, h, g),
{
    let (j, hs) = list_groups(i, o, o.len());
    lemma_script_groups(i, o, o.len(), h, g);
    if let Some(m) = meta_of(o) {
        lemma_meta_alike(j, hs, m, hs.len(), h, g);
    }
}

/// A script's list puts a group under another where the other names it, and nothing else
/// does.
pub proof fn law_script_children(i: InvView, o: VarsView, path: Seq<char>, p: Name, c: Name)
    requires
        i.wf(),
    ensures
        under(ingest_list(i, ValueView::Dict(o), path).0, p, c) <==> under(i, p, c)
            || script_relates(o, o.len() as int, p, c),
{
    let (j, hs) = list_groups(i, o, o.len());
    lemma_script_groups(i, o, o.len(), c, p);
    if let Some(m) = meta_of(o) {
        lemma_meta_alike(j, hs, m, hs.len(), c, p);
    }
}

/// A script is asked for the variables of every host that its list names, and of no other,
/// unless they come with the list.
pub proof fn law_script_questions(i: InvView, o: VarsView, path: Seq<char>, h: Name)
    requires
        i.wf(),
        meta_of(o) is None,
    ensures
        ingest_list(i, ValueView::Dict(o), path).1 matches Ok(hs) && (hs.contains(h) <==> exists|
            g: Name,
        | script_places(o, o.len() as int, h, g)),
{
    lemma_script_groups(i, o, o.len(), h, h);
}

/// A document or a script's list that is no mapping is an error that names its source, and
/// changes nothing.
pub proof fn law_no_mappings(i: InvView, v: ValueView, path: Seq<char>)
    requires
        !(v is Dict),
    ensures
        ingest_document(i, v, path).0 == i,
        ingest_document(i, v, path).1 matches Some(e) && e is Parse && e->Parse_path == path,
        ingest_list(i, v, path).0 == i,
        ingest_list(i, v, path).1 matches Err(e) && e is Parse && e->Parse_path == path,
{
}

} // verus!
