//! An export reads back: what the nested tree shows of groups and hosts is what an
//! inventory has that is read from it, as a structured document is.

use vstd::prelude::*;
use crate::assoc::{get, holds, lemma_overlay_get, lemma_pos, lemma_put_get, overlay, pos, put, Name};
use crate::graph::{chain, reaches, steps};
use crate::growth::{lemma_child_step, lemma_group_step, lemma_grows, lemma_ingest_group, lemma_ingest_host, lemma_ingest_host_map, lemma_ingest_vars};
use crate::model::{lemma_filter_names, lemma_new_wf, lemma_wf_finite, lemma_within_contains, new_inventory, priority_of, with_name, with_names, ALL, InvView, PRIORITY_VAR, UNGROUPED};
use crate::output::{hosts_map, lemma_enter, lemma_enter_more, nested_children, nested_group, nested_group_children, nested_tree, put_dict, scope, shown_vars, stays, GroupPruning, ScopeView};
use crate::output_laws::{law_first_occurrence, lemma_staying_shows, lemma_way_stays};
use crate::parse::{ingest_child_map, ingest_document, ingest_group, ingest_groups, ingest_host, ingest_host_map, ingest_vars};
use crate::read_back::{agree_but, content, lemma_add_group_content, lemma_all_new, lemma_child_content, lemma_entry_parts, lemma_exported_distinct, lemma_host_content, lemma_priority_read, lemma_shown_distinct, lemma_vars_content, lemma_vars_read, maps_wf, vars_at, with_entry, Content};
use crate::sanitize::{is_safe, lemma_safe_name_fixed};
use crate::value::{ValueView, VarsView};

verus! {

// ---------------------------------------------------------------------------------------
// Hosts
// ---------------------------------------------------------------------------------------

/// What the hosts map of a group holds, given the hosts shown before.
pub(crate) proof fn lemma_hosts_entries(i: InvView, c: ScopeView, hs: Seq<Name>, shown: Set<Name>)
    requires
        hs.no_duplicates(),
    ensures
        hosts_map(i, c, hs, shown).0.len() == hs.len(),
        hosts_map(i, c, hs, shown).1 == shown.union(hs.to_set()),
        forall|k: int|
            0 <= k < hs.len() ==> #[trigger] hosts_map(i, c, hs, shown).0[k] == (
                hs[k],
                ValueView::Dict(
                    if shown.contains(hs[k]) {
                        Seq::empty()
                    } else {
                        shown_vars(i, hs[k], c.export)
                    },
                ),
            ),
    decreases hs.len(),
{
    law_first_occurrence(i, c, hs, shown, Seq::empty());
    if hs.len() > 0 {
        let u = hs.drop_last();
        let n = hs.last();
        assert forall|a: int, b: int| 0 <= a < u.len() && 0 <= b < u.len() && a != b implies u[a]
            != u[b] by {
            assert(hs[a] != hs[b]);
        }
        lemma_hosts_entries(i, c, u, shown);
        let (m, s) = hosts_map(i, c, u, shown);
        assert(!u.contains(n)) by {
            if u.contains(n) {
                let a = choose|a: int| 0 <= a < u.len() && u[a] == n;
                assert(hs[a] == hs[hs.len() - 1]);
            }
        }
        assert(s.contains(n) == shown.contains(n));
        assert(!holds(m, n)) by {
            lemma_pos(m, n);
            if holds(m, n) {
                let p = pos(m, n);
                assert(m[p].0 == u[p]);
                assert(u.contains(u[p]));
            }
        }
        assert forall|k: int| 0 <= k < hs.len() implies #[trigger] hosts_map(i, c, hs, shown).0[k]
            == (
            hs[k],
            ValueView::Dict(
                if shown.contains(hs[k]) {
                    Seq::empty()
                } else {
                    shown_vars(i, hs[k], c.export)
                },
            ),
        ) by {
            if k < u.len() {
                assert(u[k] == hs[k]);
                assert(m[k].0 == hs[k]);
            }
        }
    }
}

/// What a host's variables are after more were put over them.
proof fn lemma_ingest_host_content(i: InvView, g: Name, h: Name, v: VarsView)
    requires
        i.wf(),
        i.groups.dom().contains(g),
    ensures
        ({
            let j = ingest_host(i, g, h, Some(v));
            &&& j.groups.dom().contains(g)
            &&& j.hosts.dom().contains(h)
            &&& forall|q: Name| q != g ==> #[trigger] content(j, q) == content(i, q)
            &&& content(j, g) == (Content {
                hosts: with_name(content(i, g).hosts, h),
                ..content(i, g)
            })
            &&& forall|x: Name| x != h ==> #[trigger] vars_at(j, x) == vars_at(i, x)
            &&& vars_at(j, h) == overlay(vars_at(i, h), v)
        }),
{
    lemma_host_content(i, h, g);
    let a = i.add_host(h).add_host_to_group(h, g);
    assert(vars_at(a, h) == vars_at(i, h));
}

/// What reading a hosts map does.
pub(crate) proof fn lemma_host_map_content(
    i: InvView,
    c: ScopeView,
    start: InvView,
    g: Name,
    hs: Seq<Name>,
    shown: Set<Name>,
    n: nat,
)
    requires
        start.wf(),
        start.groups.dom().contains(g),
        hs.no_duplicates(),
        n <= hs.len(),
    ensures
        ({
            let j = ingest_host_map(start, g, hosts_map(i, c, hs, shown).0, n);
            &&& j.wf()
            &&& j.groups.dom().contains(g)
            &&& forall|q: Name| q != g ==> #[trigger] content(j, q) == content(start, q)
            &&& content(j, g) == (Content {
                hosts: with_names(content(start, g).hosts, hs.take(n as int)),
                ..content(start, g)
            })
            &&& forall|k: int| 0 <= k < n ==> j.hosts.dom().contains(#[trigger] hs[k])
            &&& forall|x: Name| #[trigger]
                vars_at(j, x) == (if hs.take(n as int).contains(x) && !shown.contains(x) {
                    overlay(vars_at(start, x), shown_vars(i, x, c.export))
                } else {
                    vars_at(start, x)
                })
        }),
    decreases n,
{
    let m = hosts_map(i, c, hs, shown).0;
    lemma_hosts_entries(i, c, hs, shown);
    lemma_ingest_host_map(start, g, m, n);
    if n == 0 {
        assert(hs.take(0) =~= Seq::empty());
    } else {
        lemma_host_map_content(i, c, start, g, hs, shown, (n - 1) as nat);
        let a = ingest_host_map(start, g, m, (n - 1) as nat);
        let h = hs[n - 1];
        let v = if shown.contains(h) {
            Seq::empty()
        } else {
            shown_vars(i, h, c.export)
        };
        assert(m[n - 1] == (h, ValueView::Dict(v)));
        lemma_ingest_host_content(a, g, h, v);
        lemma_ingest_host(a, g, h, Some(v));
        let j = ingest_host_map(start, g, m, n);
        assert(j == ingest_host(a, g, h, Some(v)));
        let t = hs.take(n as int);
        let u = hs.take(n - 1);
        assert(t.drop_last() =~= u);
        assert(t.last() == h);
        assert(!u.contains(h)) by {
            if u.contains(h) {
                let k = choose|k: int| 0 <= k < u.len() && u[k] == h;
                assert(hs[k] == hs[n - 1]);
            }
        }
        assert forall|x: Name| #[trigger] vars_at(j, x) == (if t.contains(x) && !shown.contains(x) {
            overlay(vars_at(start, x), shown_vars(i, x, c.export))
        } else {
            vars_at(start, x)
        }) by {
            lemma_contains_last(t, x);
            assert(vars_at(a, x) == (if u.contains(x) && !shown.contains(x) {
                overlay(vars_at(start, x), shown_vars(i, x, c.export))
            } else {
                vars_at(start, x)
            }));
        }
        assert forall|k: int| 0 <= k < n implies j.hosts.dom().contains(#[trigger] hs[k]) by {
            if k < n - 1 {
                assert(a.hosts.dom().contains(hs[k]));
            }
        }
    }
}

proof fn lemma_contains_last(t: Seq<Name>, x: Name)
    requires
        t.len() > 0,
    ensures
        t.contains(x) <==> t.drop_last().contains(x) || t.last() == x,
{
    let u = t.drop_last();
    if t.contains(x) {
        let a = choose|a: int| 0 <= a < t.len() && t[a] == x;
        if a < u.len() {
            assert(u[a] == x);
        }
    }
    if u.contains(x) {
        let a = choose|a: int| 0 <= a < u.len() && u[a] == x;
        assert(t[a] == x);
    }
    if t.last() == x {
        assert(t[t.len() - 1] == x);
    }
}

// ---------------------------------------------------------------------------------------
// The shape of the tree
// ---------------------------------------------------------------------------------------

/// Every group that stays has something to show in the nested tree, `all` aside.
pub open spec fn all_show(i: InvView, c: ScopeView) -> bool {
    forall|g: Name| #[trigger]
        i.groups.dom().contains(g) && g != ALL@ && c.keeps(g) ==> c.shown_hosts(i, g).len() > 0
            || c.group_vars(i, g).len() > 0 || nested_children(i, c, g).len() > 0
}

/// What the nested tree shows of a group with these children, hosts and variables.
pub open spec fn tree_entry(children: VarsView, hosts: VarsView, vars: VarsView) -> VarsView {
    put_dict(
        put_dict(put_dict(Seq::empty(), "children"@, children), "hosts"@, hosts),
        "vars"@,
        vars,
    )
}

/// A map as a part of an entry: left out where it is empty.
pub open spec fn part(m: VarsView) -> Option<ValueView> {
    if m.len() > 0 {
        Some(ValueView::Dict(m))
    } else {
        None
    }
}

/// What is found in an entry.
proof fn lemma_tree_entry(children: VarsView, hosts: VarsView, vars: VarsView)
    ensures
        get(tree_entry(children, hosts, vars), "children"@) == part(children),
        get(tree_entry(children, hosts, vars), "hosts"@) == part(hosts),
        get(tree_entry(children, hosts, vars), "vars"@) == part(vars),
        tree_entry(children, hosts, vars).len() > 0 <==> children.len() > 0 || hosts.len() > 0
            || vars.len() > 0,
{
    reveal_strlit("vars");
    reveal_strlit("hosts");
    reveal_strlit("children");
    assert("vars"@.len() == 4 && "hosts"@.len() == 5 && "children"@.len() == 8);
    let none = Seq::<(Name, ValueView)>::empty();
    let a = put_dict(none, "children"@, children);
    let b = put_dict(a, "hosts"@, hosts);
    lemma_pos(none, "hosts"@);
    lemma_pos(none, "children"@);
    lemma_pos(none, "vars"@);
    lemma_put_get(none, "children"@, ValueView::Dict(children), "hosts"@);
    lemma_put_get(none, "children"@, ValueView::Dict(children), "children"@);
    lemma_put_get(none, "children"@, ValueView::Dict(children), "vars"@);
    lemma_put_get(a, "hosts"@, ValueView::Dict(hosts), "hosts"@);
    lemma_put_get(a, "hosts"@, ValueView::Dict(hosts), "children"@);
    lemma_put_get(a, "hosts"@, ValueView::Dict(hosts), "vars"@);
    lemma_put_get(b, "vars"@, ValueView::Dict(vars), "hosts"@);
    lemma_put_get(b, "vars"@, ValueView::Dict(vars), "children"@);
    lemma_put_get(b, "vars"@, ValueView::Dict(vars), "vars"@);
}

/// The children that the nested tree shows are groups, and `all` is none of them.
proof fn lemma_nested_children(i: InvView, c: ScopeView, g: Name)
    requires
        i.wf(),
        i.groups.dom().contains(g),
    ensures
        nested_children(i, c, g).no_duplicates(),
        forall|x: Name| #[trigger]
            nested_children(i, c, g).contains(x) ==> i.groups.dom().contains(x) && x != ALL@
                && x != g && c.keeps(x),
{
    assert(i.group_wf(g));
    lemma_filter_names(i.groups[g].children, |s: Name| s != ALL@ && c.keeps(s));
    lemma_within_contains(i.groups[g].children, i.groups.dom());
}

/// The groups entered between two sets, with everything that they show below them, and the
/// hosts that they show.
pub open spec fn whole(
    i: InvView,
    c: ScopeView,
    seen: Set<Name>,
    s: Set<Name>,
    shown: Set<Name>,
    h: Set<Name>,
) -> bool {
    &&& seen.subset_of(s)
    &&& shown.subset_of(h)
    &&& s.contains(ALL@) ==> seen.contains(ALL@)
    &&& forall|x: Name| #[trigger]
        s.contains(x) && !seen.contains(x) ==> i.groups.dom().contains(x)
    &&& forall|x: Name, y: Name|
        #![trigger s.contains(x), nested_children(i, c, x).contains(y)]
        s.contains(x) && !seen.contains(x) && nested_children(i, c, x).contains(y) ==> s.contains(y)
    &&& forall|x: Name, y: Name|
        #![trigger s.contains(x), c.shown_hosts(i, x).contains(y)]
        s.contains(x) && !seen.contains(x) && c.shown_hosts(i, x).contains(y) ==> h.contains(y)
}

/// What the nested tree of a group looks like.
proof fn lemma_tree_shape(i: InvView, c: ScopeView, g: Name, shown: Set<Name>, seen: Set<Name>)
    requires
        i.wf(),
        i.groups.dom().finite(),
        i.groups.dom().contains(g),
        all_show(i, c),
    ensures
        ({
            let (m, h, s) = nested_group(i, c, g, shown, seen);
            &&& whole(i, c, seen, s, shown, h)
            &&& forall|y: Name| #[trigger] nested_children(i, c, g).contains(y) ==> s.contains(y)
            &&& forall|y: Name| #[trigger] c.shown_hosts(i, g).contains(y) ==> h.contains(y)
            &&& g != ALL@ && c.keeps(g) ==> m.len() == 1 && m[0].0 == g
        }),
    decreases i.groups.dom().difference(seen).len(), 1nat, 0nat,
{
    let none = Seq::<(Name, ValueView)>::empty();
    let cs = nested_children(i, c, g);
    lemma_nested_children(i, c, g);
    lemma_children_shape(i, c, cs, none, shown, seen);
    let (children, h1, s) = nested_group_children(i, c, cs, none, shown, seen);
    let hs = c.shown_hosts(i, g);
    assert(i.group_wf(g));
    lemma_filter_names(i.groups[g].hosts, |x: Name| c.available.contains(x));
    assert(hs.no_duplicates());
    lemma_hosts_entries(i, c, hs, h1);
    let hosts = hosts_map(i, c, hs, h1).0;
    lemma_tree_entry(children, hosts, c.group_vars(i, g));
    lemma_pos(none, g);
}

/// What the nested trees of some children look like.
proof fn lemma_children_shape(
    i: InvView,
    c: ScopeView,
    cs: Seq<Name>,
    acc: VarsView,
    shown: Set<Name>,
    seen: Set<Name>,
)
    requires
        i.wf(),
        i.groups.dom().finite(),
        all_show(i, c),
        cs.no_duplicates(),
        forall|x: Name| #[trigger]
            cs.contains(x) ==> i.groups.dom().contains(x) && x != ALL@ && c.keeps(x) && !holds(
                acc,
                x,
            ),
    ensures
        ({
            let (m, h, s) = nested_group_children(i, c, cs, acc, shown, seen);
            &&& whole(i, c, seen, s, shown, h)
            &&& forall|y: Name| #[trigger] cs.contains(y) ==> s.contains(y)
            &&& m.len() == acc.len() + cs.len()
            &&& m.take(acc.len() as int) == acc
        }),
    decreases i.groups.dom().difference(seen).len(), 0nat, cs.len(),
{
    if cs.len() == 0 {
        assert(acc.take(acc.len() as int) =~= acc);
    } else {
        let x = cs[0];
        let rest = cs.drop_first();
        assert(cs.contains(x));
        lemma_rest(cs);
        if seen.contains(x) {
            let more = put(acc, x, ValueView::Dict(Seq::empty()));
            assert(more == acc.push((x, ValueView::Dict(Seq::empty()))));
            assert forall|y: Name| #[trigger] rest.contains(y) implies i.groups.dom().contains(y)
                && y != ALL@ && c.keeps(y) && !holds(more, y) by {
                assert(cs.contains(y));
                lemma_put_get(acc, x, ValueView::Dict(Seq::empty()), y);
            }
            lemma_children_shape(i, c, rest, more, shown, seen);
            let m = nested_group_children(i, c, rest, more, shown, seen).0;
            assert(m.take(acc.len() as int) =~= m.take(more.len() as int).take(acc.len() as int));
            assert(more.take(acc.len() as int) =~= acc);
        } else {
            let now = seen.insert(x);
            lemma_enter(i.groups.dom(), seen, now, x);
            let (m0, h, s) = nested_group(i, c, x, shown, now);
            lemma_tree_shape(i, c, x, shown, now);
            lemma_enter_more(i.groups.dom(), seen, s, x);
            assert(now.union(s) =~= s);
            let more = overlay(acc, m0);
            assert(c.keeps(x));
            assert(m0.len() == 1);
            assert(m0.drop_last() =~= Seq::empty());
            assert(!holds(acc, x));
            assert(overlay(acc, m0.drop_last()) == acc);
            assert(m0.last() == m0[0]);
            assert(more == acc.push((x, m0[0].1)));
            assert forall|y: Name| #[trigger] rest.contains(y) implies i.groups.dom().contains(y)
                && y != ALL@ && c.keeps(y) && !holds(more, y) by {
                assert(cs.contains(y));
                lemma_put_get(acc, x, m0[0].1, y);
            }
            lemma_children_shape(i, c, rest, more, h, now.union(s));
            let (m, h2, s2) = nested_group_children(i, c, rest, more, h, now.union(s));
            assert(m.take(acc.len() as int) =~= m.take(more.len() as int).take(acc.len() as int));
            assert(more.take(acc.len() as int) =~= acc);
            assert forall|a: Name, b: Name|
                #![trigger s2.contains(a), nested_children(i, c, a).contains(b)]
                s2.contains(a) && !seen.contains(a) && nested_children(i, c, a).contains(
                    b,
                ) implies s2.contains(b) by {
                if s.contains(a) {
                    assert(s.contains(b));
                }
            }
            assert forall|a: Name, b: Name|
                #![trigger s2.contains(a), c.shown_hosts(i, a).contains(b)]
                s2.contains(a) && !seen.contains(a) && c.shown_hosts(i, a).contains(
                    b,
                ) implies h2.contains(b) by {
                if s.contains(a) {
                    assert(h.contains(b));
                }
            }
        }
    }
}

/// The names behind the first of some.
proof fn lemma_rest(cs: Seq<Name>)
    requires
        cs.len() > 0,
        cs.no_duplicates(),
    ensures
        cs.drop_first().no_duplicates(),
        !cs.drop_first().contains(cs[0]),
        forall|y: Name| #[trigger] cs.drop_first().contains(y) ==> cs.contains(y),
        forall|y: Name| #[trigger] cs.contains(y) ==> y == cs[0] || cs.drop_first().contains(y),
{
    let rest = cs.drop_first();
    assert forall|a: int, b: int|
        0 <= a < rest.len() && 0 <= b < rest.len() && a != b implies rest[a] != rest[b] by {
        assert(cs[a + 1] != cs[b + 1]);
    }
    if rest.contains(cs[0]) {
        let a = choose|a: int| 0 <= a < rest.len() && rest[a] == cs[0];
        assert(cs[a + 1] != cs[0]);
    }
    assert forall|y: Name| #[trigger] rest.contains(y) implies cs.contains(y) by {
        let a = choose|a: int| 0 <= a < rest.len() && rest[a] == y;
        assert(cs[a + 1] == y);
    }
    assert forall|y: Name| #[trigger] cs.contains(y) implies y == cs[0] || rest.contains(y) by {
        let a = choose|a: int| 0 <= a < cs.len() && cs[a] == y;
        if a > 0 {
            assert(rest[a - 1] == y);
        }
    }
}

// ---------------------------------------------------------------------------------------
// Reading the tree
// ---------------------------------------------------------------------------------------

/// What a group holds after the tree's entry for it was read.
pub open spec fn tree_read(i: InvView, c: ScopeView, g: Name, held: Content) -> Content {
    with_entry(held, c.shown_hosts(i, g), nested_children(i, c, g), c.group_vars(i, g))
}

/// A host's variables after those that the tree shows of it were read.
pub open spec fn host_read(i: InvView, c: ScopeView, h: Name, held: VarsView) -> VarsView {
    overlay(held, shown_vars(i, h, c.export))
}

/// What reading a part of the tree does: every group entered in it gets its entry, and every
/// host shown in it first gets its variables.
pub open spec fn reads(
    i: InvView,
    c: ScopeView,
    a: InvView,
    b: InvView,
    shown: Set<Name>,
    h: Set<Name>,
    seen: Set<Name>,
    s: Set<Name>,
) -> bool {
    &&& forall|q: Name| #[trigger]
        s.contains(q) && !seen.contains(q) ==> b.groups.dom().contains(q)
    &&& forall|q: Name|
        s.contains(q) && !seen.contains(q) ==> #[trigger] content(b, q) == tree_read(
            i,
            c,
            q,
            content(a, q),
        )
    &&& forall|x: Name| #[trigger]
        vars_at(b, x) == (if h.contains(x) && !shown.contains(x) {
            host_read(i, c, x, vars_at(a, x))
        } else {
            vars_at(a, x)
        })
    &&& forall|x: Name| #[trigger]
        h.contains(x) && !shown.contains(x) ==> b.hosts.dom().contains(x)
}

/// Groups that are neither `g` nor entered keep what they hold.
spec fn others_stay(
    a: InvView,
    b: InvView,
    g: Name,
    p: Option<Name>,
    seen: Set<Name>,
    s: Set<Name>,
) -> bool {
    forall|q: Name|
        q != g && p != Some(q) && !(s.contains(q) && !seen.contains(q)) ==> #[trigger] content(b, q)
            == content(a, q)
}

/// Reading the first entries of a map of children does not depend on what follows them.
proof fn lemma_child_map_prefix(i: InvView, g: Name, a: VarsView, b: VarsView, n: nat)
    requires
        n <= a.len(),
        n <= b.len(),
        a.take(n as int) == b.take(n as int),
    ensures
        ingest_child_map(i, g, a, n) == ingest_child_map(i, g, b, n),
    decreases n,
{
    if n > 0 {
        assert(a.take(n - 1) =~= a.take(n as int).take(n - 1));
        assert(b.take(n - 1) =~= b.take(n as int).take(n - 1));
        lemma_child_map_prefix(i, g, a, b, (n - 1) as nat);
        assert(a[n - 1] == a.take(n as int)[n - 1]);
        assert(b[n - 1] == b.take(n as int)[n - 1]);
    }
}

/// Reading a map of children with one entry more.
proof fn lemma_child_map_push(i: InvView, g: Name, acc: VarsView, x: Name, v: ValueView)
    ensures
        ingest_child_map(i, g, acc.push((x, v)), acc.len() + 1) == ingest_group(
            ingest_child_map(i, g, acc, acc.len()),
            x,
            v,
            Some(g),
        ),
{
    let m = acc.push((x, v));
    assert(m.take(acc.len() as int) =~= acc.take(acc.len() as int));
    lemma_child_map_prefix(i, g, m, acc, acc.len());
}

proof fn lemma_with_names_first(s: Seq<Name>, x: Name, rest: Seq<Name>)
    ensures
        with_names(s, seq![x] + rest) == with_names(with_name(s, x), rest),
    decreases rest.len(),
{
    let all = seq![x] + rest;
    if rest.len() == 0 {
        assert(all.drop_last() =~= Seq::empty());
        assert(with_names(s, all.drop_last()) == s);
    } else {
        lemma_with_names_first(s, x, rest.drop_last());
        assert(all.drop_last() =~= seq![x] + rest.drop_last());
    }
}

/// Reading a child whose entry is empty links it, and nothing more.
proof fn lemma_empty_child(a: InvView, g: Name, x: Name)
    requires
        a.wf(),
        a.groups.dom().contains(g),
        is_safe(x),
        x != g,
    ensures
        ({
            let b = ingest_group(a, x, ValueView::Dict(Seq::empty()), Some(g));
            &&& b.wf()
            &&& b.groups.dom().contains(g)
            &&& agree_but(a, b, g)
            &&& content(b, g) == (Content {
                children: with_name(content(a, g).children, x),
                ..content(a, g)
            })
            &&& b.hosts.dom() == a.hosts.dom()
            &&& a.groups.dom().subset_of(b.groups.dom())
        }),
{
    let none = Seq::<(Name, ValueView)>::empty();
    lemma_safe_name_fixed(x);
    lemma_group_step(a, x);
    lemma_add_group_content(a, x);
    let m = a.add_group(x);
    lemma_child_step(m, g, x);
    lemma_child_content(m, g, x);
    lemma_pos(none, "hosts"@);
    lemma_pos(none, "vars"@);
    lemma_pos(none, "children"@);
    assert(ingest_group(a, x, ValueView::Dict(none), Some(g)) == m.add_child(g, x));
}

/// What reading the nested tree of a group does.
proof fn lemma_tree_effect(
    i: InvView,
    c: ScopeView,
    g: Name,
    shown: Set<Name>,
    seen: Set<Name>,
    a: InvView,
    parent: Option<Name>,
)
    requires
        i.wf(),
        i.groups.dom().finite(),
        all_show(i, c),
        i.groups.dom().contains(g),
        seen.contains(g) || g == ALL@ && !seen.contains(g),
        a.wf(),
        parent matches Some(p) ==> a.groups.dom().contains(p) && p != g && (seen.contains(p) || p
            == ALL@),
    ensures
        ({
            let (m, h, s) = nested_group(i, c, g, shown, seen);
            let (children, h1, s1) = nested_group_children(
                i,
                c,
                nested_children(i, c, g),
                Seq::empty(),
                shown,
                seen,
            );
            let hosts = hosts_map(i, c, c.shown_hosts(i, g), h1).0;
            let entry = tree_entry(children, hosts, c.group_vars(i, g));
            let b = ingest_group(a, g, ValueView::Dict(entry), parent);
            &&& b.wf()
            &&& b.groups.dom().contains(g)
            &&& reads(i, c, a, b, shown, h, seen, s)
            &&& content(b, g) == tree_read(i, c, g, content(a, g))
            &&& parent matches Some(p) ==> content(b, p) == (Content {
                children: with_name(content(a, p).children, g),
                ..content(a, p)
            })
            &&& others_stay(a, b, g, parent, seen, s)
        }),
    decreases i.groups.dom().difference(seen).len(), 1nat, 0nat,
{
    let none = Seq::<(Name, ValueView)>::empty();
    let cs = nested_children(i, c, g);
    let (children, h1, s) = nested_group_children(i, c, cs, none, shown, seen);
    let hs = c.shown_hosts(i, g);
    let vs = c.group_vars(i, g);
    let (hosts, h) = hosts_map(i, c, hs, h1);
    let o = tree_entry(children, hosts, vs);
    lemma_nested_children(i, c, g);
    assert forall|x: Name| #[trigger] cs.contains(x) implies !holds(none, x) by {
        lemma_pos(none, x);
    }
    lemma_children_shape(i, c, cs, none, shown, seen);
    assert(i.group_wf(g));
    lemma_filter_names(i.groups[g].hosts, |x: Name| c.available.contains(x));
    assert(hs.no_duplicates());
    lemma_hosts_entries(i, c, hs, h1);
    lemma_tree_entry(children, hosts, vs);
    assert(i.group_wf(g));
    lemma_safe_name_fixed(g);
    // The group and its link.
    let made = a.add_group(g);
    lemma_group_step(a, g);
    lemma_add_group_content(a, g);
    let linked = match parent {
        Some(p) => made.add_child(p, g),
        None => made,
    };
    if let Some(p) = parent {
        lemma_child_step(made, p, g);
        lemma_child_content(made, p, g);
    }
    assert(linked.wf() && linked.groups.dom().contains(g));
    // Its hosts.
    let with_hosts = ingest_host_map(linked, g, hosts, hosts.len());
    lemma_host_map_content(i, c, linked, g, hs, h1, hs.len());
    assert(hs.take(hs.len() as int) =~= hs);
    // Its variables.
    let with_vars = ingest_vars(with_hosts, g, vs, vs.len());
    lemma_ingest_vars(with_hosts, g, vs, vs.len());
    lemma_vars_content(with_hosts, g, vs, vs.len());
    // Its children.
    assert(ingest_child_map(with_vars, g, none, 0) == with_vars);
    lemma_children_effect(i, c, cs, none, shown, seen, with_vars, g);
    let b = ingest_child_map(with_vars, g, children, children.len());
    lemma_read_parts(a, g, children, hosts, vs, parent, linked);
    assert(b == ingest_group(a, g, ValueView::Dict(o), parent));
    lemma_host_effect(i, c, a, with_vars, b, hs, shown, h1, h, seen, s);
}

/// What reading the hosts and the children of a group comes to.
proof fn lemma_host_effect(
    i: InvView,
    c: ScopeView,
    a: InvView,
    mid: InvView,
    b: InvView,
    hs: Seq<Name>,
    shown: Set<Name>,
    h1: Set<Name>,
    h: Set<Name>,
    seen: Set<Name>,
    s: Set<Name>,
)
    requires
        h == h1.union(hs.to_set()),
        shown.subset_of(h1),
        reads(i, c, mid, b, shown, h1, seen, s),
        forall|q: Name|
            #![trigger content(mid, q)]
            s.contains(q) && !seen.contains(q) ==> content(mid, q) == content(a, q),
        forall|x: Name| #[trigger]
            vars_at(mid, x) == (if hs.contains(x) && !h1.contains(x) {
                host_read(i, c, x, vars_at(a, x))
            } else {
                vars_at(a, x)
            }),
        forall|x: Name| #[trigger] hs.contains(x) ==> b.hosts.dom().contains(x),
    ensures
        reads(i, c, a, b, shown, h, seen, s),
{
    assert forall|q: Name|
        s.contains(q) && !seen.contains(q) implies #[trigger] content(b, q) == tree_read(
        i,
        c,
        q,
        content(a, q),
    ) by {
        assert(content(mid, q) == content(a, q));
    }
    assert forall|x: Name| #[trigger]
        vars_at(b, x) == (if h.contains(x) && !shown.contains(x) {
            host_read(i, c, x, vars_at(a, x))
        } else {
            vars_at(a, x)
        }) by {
        assert(hs.to_set().contains(x) == hs.contains(x));
        assert(vars_at(mid, x) == (if hs.contains(x) && !h1.contains(x) {
            host_read(i, c, x, vars_at(a, x))
        } else {
            vars_at(a, x)
        }));
    }
    assert forall|x: Name| #[trigger] h.contains(x) && !shown.contains(x) implies b.hosts.dom().contains(
        x,
    ) by {
        if hs.contains(x) {
        } else {
            assert(h1.contains(x));
        }
    }
}

/// Reading a group's entry: its hosts, its variables, its children.
proof fn lemma_read_parts(
    a: InvView,
    g: Name,
    children: VarsView,
    hosts: VarsView,
    vs: VarsView,
    parent: Option<Name>,
    linked: InvView,
)
    requires
        is_safe(g),
        linked == (match parent {
            Some(p) => a.add_group(g).add_child(p, g),
            None => a.add_group(g),
        }),
    ensures
        ingest_group(a, g, ValueView::Dict(tree_entry(children, hosts, vs)), parent)
            == ingest_child_map(
            ingest_vars(ingest_host_map(linked, g, hosts, hosts.len()), g, vs, vs.len()),
            g,
            children,
            children.len(),
        ),
{
    let o = tree_entry(children, hosts, vs);
    lemma_tree_entry(children, hosts, vs);
    lemma_safe_name_fixed(g);
    lemma_pos(o, "children"@);
}

/// What reading the nested trees of some children does.
proof fn lemma_children_effect(
    i: InvView,
    c: ScopeView,
    cs: Seq<Name>,
    acc: VarsView,
    shown: Set<Name>,
    seen: Set<Name>,
    start: InvView,
    g: Name,
)
    requires
        i.wf(),
        i.groups.dom().finite(),
        all_show(i, c),
        cs.no_duplicates(),
        forall|x: Name| #[trigger]
            cs.contains(x) ==> i.groups.dom().contains(x) && x != ALL@ && x != g && c.keeps(x)
                && !holds(acc, x),
        seen.contains(g) || g == ALL@ && !seen.contains(g),
        ingest_child_map(start, g, acc, acc.len()).wf(),
        ingest_child_map(start, g, acc, acc.len()).groups.dom().contains(g),
    ensures
        ({
            let a = ingest_child_map(start, g, acc, acc.len());
            let (m, h, s) = nested_group_children(i, c, cs, acc, shown, seen);
            let b = ingest_child_map(start, g, m, m.len());
            &&& b.wf()
            &&& b.groups.dom().contains(g)
            &&& a.hosts.dom().subset_of(b.hosts.dom())
            &&& a.groups.dom().subset_of(b.groups.dom())
            &&& reads(i, c, a, b, shown, h, seen, s)
            &&& content(b, g) == (Content {
                children: with_names(content(a, g).children, cs),
                ..content(a, g)
            })
            &&& others_stay(a, b, g, None, seen, s)
        }),
    decreases i.groups.dom().difference(seen).len(), 0nat, cs.len(),
{
    let a = ingest_child_map(start, g, acc, acc.len());
    if cs.len() > 0 {
        let x = cs[0];
        let rest = cs.drop_first();
        assert(cs.contains(x));
        lemma_rest(cs);
        assert(i.group_wf(x));
        assert(cs =~= seq![x] + rest);
        lemma_with_names_first(content(a, g).children, x, rest);
        if seen.contains(x) {
            let v = ValueView::Dict(Seq::empty());
            let more = put(acc, x, v);
            assert(more == acc.push((x, v)));
            assert forall|y: Name| #[trigger] rest.contains(y) implies i.groups.dom().contains(y)
                && y != ALL@ && y != g && c.keeps(y) && !holds(more, y) by {
                assert(cs.contains(y));
                lemma_put_get(acc, x, v, y);
            }
            lemma_child_map_push(start, g, acc, x, v);
            lemma_empty_child(a, g, x);
            lemma_children_effect(i, c, rest, more, shown, seen, start, g);
            let mid = ingest_child_map(start, g, more, more.len());
            let (m, h, s) = nested_group_children(i, c, cs, acc, shown, seen);
            let b = ingest_child_map(start, g, m, m.len());
            lemma_children_shape(i, c, cs, acc, shown, seen);
            lemma_reads_after_link(i, c, a, mid, b, shown, h, seen, s, g);
        } else {
            let now = seen.insert(x);
            lemma_enter(i.groups.dom(), seen, now, x);
            let (m0, h1, s1) = nested_group(i, c, x, shown, now);
            lemma_tree_shape(i, c, x, shown, now);
            lemma_enter_more(i.groups.dom(), seen, s1, x);
            assert(now.union(s1) =~= s1);
            let more = overlay(acc, m0);
            assert(c.keeps(x));
            assert(m0.len() == 1);
            assert(m0.drop_last() =~= Seq::empty());
            assert(!holds(acc, x));
            assert(overlay(acc, m0.drop_last()) == acc);
            assert(m0.last() == m0[0]);
            let v = m0[0].1;
            assert(more == acc.push((x, v)));
            assert forall|y: Name| #[trigger] rest.contains(y) implies i.groups.dom().contains(y)
                && y != ALL@ && y != g && c.keeps(y) && !holds(more, y) by {
                assert(cs.contains(y));
                lemma_put_get(acc, x, v, y);
            }
            lemma_child_map_push(start, g, acc, x, v);
            lemma_tree_value(i, c, x, shown, now);
            lemma_tree_effect(i, c, x, shown, now, a, Some(g));
            let mid = ingest_child_map(start, g, more, more.len());
            lemma_children_effect(i, c, rest, more, h1, now.union(s1), start, g);
            let (m, h2, s2) = nested_group_children(i, c, cs, acc, shown, seen);
            let b = ingest_child_map(start, g, m, m.len());
            lemma_children_shape(i, c, rest, more, h1, s1);
            lemma_ingest_group(a, x, v, Some(g));
            lemma_reads_compose(i, c, a, mid, b, shown, h1, h2, seen, now, s1, s2, g, x);
        }
    } else {
        lemma_grows(a, a, a);
    }
}

/// The value of a group's nested tree.
proof fn lemma_tree_value(i: InvView, c: ScopeView, g: Name, shown: Set<Name>, seen: Set<Name>)
    requires
        i.wf(),
        i.groups.dom().finite(),
        i.groups.dom().contains(g),
        nested_group(i, c, g, shown, seen).0.len() > 0,
    ensures
        ({
            let (children, h1, s1) = nested_group_children(
                i,
                c,
                nested_children(i, c, g),
                Seq::empty(),
                shown,
                seen,
            );
            let hosts = hosts_map(i, c, c.shown_hosts(i, g), h1).0;
            nested_group(i, c, g, shown, seen).0[0].1 == ValueView::Dict(
                tree_entry(children, hosts, c.group_vars(i, g)),
            )
        }),
{
    lemma_pos(Seq::<(Name, ValueView)>::empty(), g);
}

proof fn lemma_reads_after_link(
    i: InvView,
    c: ScopeView,
    a: InvView,
    mid: InvView,
    b: InvView,
    shown: Set<Name>,
    h: Set<Name>,
    seen: Set<Name>,
    s: Set<Name>,
    g: Name,
)
    requires
        agree_but(a, mid, g),
        reads(i, c, mid, b, shown, h, seen, s),
        others_stay(mid, b, g, None, seen, s),
        !(s.contains(g) && !seen.contains(g)),
    ensures
        reads(i, c, a, b, shown, h, seen, s),
        others_stay(a, b, g, None, seen, s),
{
    assert forall|q: Name|
        s.contains(q) && !seen.contains(q) implies #[trigger] content(b, q) == tree_read(
        i,
        c,
        q,
        content(a, q),
    ) by {
        assert(content(mid, q) == content(a, q));
    }
    assert forall|x: Name| #[trigger]
        vars_at(b, x) == (if h.contains(x) && !shown.contains(x) {
            host_read(i, c, x, vars_at(a, x))
        } else {
            vars_at(a, x)
        }) by {
        assert(vars_at(mid, x) == vars_at(a, x));
    }
    assert forall|q: Name|
        q != g && !(s.contains(q) && !seen.contains(q)) implies #[trigger] content(b, q)
        == content(a, q) by {
        assert(content(mid, q) == content(a, q));
    }
}

proof fn lemma_reads_compose(
    i: InvView,
    c: ScopeView,
    a: InvView,
    mid: InvView,
    b: InvView,
    shown: Set<Name>,
    h1: Set<Name>,
    h2: Set<Name>,
    seen: Set<Name>,
    now: Set<Name>,
    s1: Set<Name>,
    s2: Set<Name>,
    g: Name,
    x: Name,
)
    requires
        now == seen.insert(x),
        !seen.contains(x),
        now.subset_of(s1),
        s1.subset_of(s2),
        shown.subset_of(h1),
        h1.subset_of(h2),
        x != g,
        !(s2.contains(g) && !seen.contains(g)),
        reads(i, c, a, mid, shown, h1, now, s1),
        content(mid, x) == tree_read(i, c, x, content(a, x)),
        mid.groups.dom().contains(x),
        others_stay(a, mid, x, Some(g), now, s1),
        reads(i, c, mid, b, h1, h2, s1, s2),
        others_stay(mid, b, g, None, s1, s2),
        mid.hosts.dom().subset_of(b.hosts.dom()),
        mid.groups.dom().subset_of(b.groups.dom()),
    ensures
        reads(i, c, a, b, shown, h2, seen, s2),
        others_stay(a, b, g, None, seen, s2),
{
    assert forall|q: Name|
        s2.contains(q) && !seen.contains(q) implies #[trigger] content(b, q) == tree_read(
        i,
        c,
        q,
        content(a, q),
    ) by {
        if s1.contains(q) {
            assert(content(mid, q) == tree_read(i, c, q, content(a, q)));
        } else {
            assert(content(mid, q) == content(a, q));
        }
    }
    assert forall|q: Name| #[trigger] s2.contains(q) && !seen.contains(q) implies b.groups.dom().contains(
        q,
    ) by {
        if s1.contains(q) {
            assert(mid.groups.dom().contains(q));
        }
    }
    assert forall|y: Name| #[trigger]
        vars_at(b, y) == (if h2.contains(y) && !shown.contains(y) {
            host_read(i, c, y, vars_at(a, y))
        } else {
            vars_at(a, y)
        }) by {
        assert(vars_at(mid, y) == (if h1.contains(y) && !shown.contains(y) {
            host_read(i, c, y, vars_at(a, y))
        } else {
            vars_at(a, y)
        }));
    }
    assert forall|y: Name| #[trigger] h2.contains(y) && !shown.contains(y) implies b.hosts.dom().contains(
        y,
    ) by {
        if h1.contains(y) {
            assert(mid.hosts.dom().contains(y));
        }
    }
    assert forall|q: Name|
        q != g && !(s2.contains(q) && !seen.contains(q)) implies #[trigger] content(b, q)
        == content(a, q) by {
        assert(content(mid, q) == content(a, q));
    }
}

// ---------------------------------------------------------------------------------------
// The tree of an inventory
// ---------------------------------------------------------------------------------------

pub(crate) proof fn lemma_same_filter(s: Seq<Name>, f: spec_fn(Name) -> bool, g: spec_fn(Name) -> bool)
    requires
        forall|x: Name| #[trigger] s.contains(x) ==> f(x) == g(x),
    ensures
        s.filter(f) == s.filter(g),
    decreases s.len(),
{
    reveal(Seq::filter);
    if s.len() > 0 {
        let u = s.drop_last();
        assert forall|x: Name| #[trigger] u.contains(x) implies f(x) == g(x) by {
            lemma_contains_last(s, x);
        }
        lemma_same_filter(u, f, g);
        lemma_contains_last(s, s.last());
    }
}

/// Where `all` is no child, the nested tree shows all children that stay.
proof fn lemma_nested_is_kept(i: InvView, c: ScopeView, g: Name)
    requires
        i.wf(),
        i.groups[ALL@].parents.len() == 0,
        i.groups.dom().contains(g),
    ensures
        nested_children(i, c, g) == c.kept_children(i, g),
{
    let cs = i.groups[g].children;
    assert(i.group_wf(g));
    assert forall|x: Name| #[trigger] cs.contains(x) implies x != ALL@ by {
        assert(i.groups[x].parents.contains(g));
    }
    lemma_same_filter(cs, |x: Name| x != ALL@ && c.keeps(x), |x: Name| c.keeps(x));
}

/// Under graph-aware pruning every group that stays has something to show.
proof fn lemma_staying_groups_show(i: InvView, available: Set<Name>, export: bool)
    requires
        i.wf(),
        i.groups[ALL@].parents.len() == 0,
    ensures
        all_show(i, scope(i, available, export, GroupPruning::GraphAware)),
{
    let c = scope(i, available, export, GroupPruning::GraphAware);
    assert forall|g: Name| #[trigger]
        i.groups.dom().contains(g) && g != ALL@ && c.keeps(g) implies c.shown_hosts(i, g).len() > 0
        || c.group_vars(i, g).len() > 0 || nested_children(i, c, g).len() > 0 by {
        lemma_staying_shows(i, available, export, g);
        lemma_entry_parts(c.shown_hosts(i, g), c.kept_children(i, g), c.group_vars(i, g));
        lemma_nested_is_kept(i, c, g);
    }
}

/// Every group on the way down to one that stays is entered.
proof fn lemma_way_entered(
    i: InvView,
    available: Set<Name>,
    export: bool,
    p: Seq<Name>,
    s: Set<Name>,
    h: Set<Name>,
    k: int,
)
    requires
        i.wf(),
        i.groups[ALL@].parents.len() == 0,
        chain(i.children(), p),
        p[0] == ALL@,
        1 <= k < p.len(),
        i.groups.dom().contains(p.last()),
        stays(i, available, export, p.last()),
        ({
            let c = scope(i, available, export, GroupPruning::GraphAware);
            &&& whole(i, c, Set::empty(), s, Set::empty(), h)
            &&& forall|y: Name| #[trigger] nested_children(i, c, ALL@).contains(y) ==> s.contains(y)
        }),
    ensures
        s.contains(p[k]),
    decreases k,
{
    let c = scope(i, available, export, GroupPruning::GraphAware);
    lemma_way_stays(i, available, export, p, k);
    lemma_way_stays(i, available, export, p, k - 1);
    assert(steps(i.children(), p[k - 1]).contains(p[k - 1 + 1]));
    assert(i.groups[p[k - 1]].children.contains(p[k]));
    lemma_nested_is_kept(i, c, p[k - 1]);
    lemma_filter_names(i.groups[p[k - 1]].children, |x: Name| c.keeps(x));
    assert(nested_children(i, c, p[k - 1]).contains(p[k]));
    if k > 1 {
        lemma_way_entered(i, available, export, p, s, h, k - 1);
    }
}

/// An export reads back. An inventory that is read from the nested tree of another has `all`
/// and every group below it that has something visible in it or below it, with its visible
/// hosts and its children that stay, and, under export, its variables and its priority; and
/// every visible host of such a group, with the variables that the tree shows of it: under
/// export its own. (`all` has `ungrouped` among its children in any case. Where `all` is
/// itself a child of some group, that link is not shown.)
pub proof fn law_export_reads_back(
    i: InvView,
    available: Set<Name>,
    export: bool,
    path: Seq<char>,
    g: Name,
    h: Name,
    k: Name,
)
    requires
        i.wf(),
        maps_wf(i),
        i.groups[ALL@].parents.len() == 0,
        i.groups.dom().contains(g),
        g != ALL@ ==> reaches(i.children(), ALL@, g) && stays(i, available, export, g),
    ensures
        ({
            let c = scope(i, available, export, GroupPruning::GraphAware);
            let (j, e) = ingest_document(
                new_inventory(),
                ValueView::Dict(nested_tree(i, c)),
                path,
            );
            let vars = c.group_vars(i, g);
            &&& e is None
            &&& j.groups.dom().contains(g)
            &&& j.groups[g].hosts == c.shown_hosts(i, g)
            &&& j.groups[g].children == (if g == ALL@ {
                with_names(seq![UNGROUPED@], c.kept_children(i, g))
            } else {
                c.kept_children(i, g)
            })
            &&& k != PRIORITY_VAR@ ==> get(j.groups[g].vars, k) == get(vars, k)
            &&& get(j.groups[g].vars, PRIORITY_VAR@) is None
            &&& j.groups[g].priority == (match get(vars, PRIORITY_VAR@) {
                Some(x) => match priority_of(x) {
                    Some(p) => p as int,
                    None => 1,
                },
                None => 1,
            })
            &&& c.shown_hosts(i, g).contains(h) ==> j.hosts.dom().contains(h) && get(
                j.hosts[h].vars,
                k,
            ) == get(shown_vars(i, h, export), k)
        }),
{
    let c = scope(i, available, export, GroupPruning::GraphAware);
    let none = Seq::<(Name, ValueView)>::empty();
    let no_names = Set::<Name>::empty();
    let start = new_inventory();
    lemma_new_wf();
    lemma_wf_finite(i);
    lemma_staying_groups_show(i, available, export);
    let (m, hs, s) = nested_group(i, c, ALL@, no_names, no_names);
    lemma_tree_shape(i, c, ALL@, no_names, no_names);
    lemma_nested_is_kept(i, c, ALL@);
    lemma_filter_names(i.groups[ALL@].children, |x: Name| c.keeps(x));
    let cs = nested_children(i, c, ALL@);
    if g != ALL@ {
        // The group is entered, and the tree is not empty.
        let p = choose|p: Seq<Name>| #[trigger]
            chain(i.children(), p) && p[0] == ALL@ && p.last() == g;
        assert(p.len() > 1);
        lemma_way_entered(i, available, export, p, s, hs, p.len() - 1);
        assert(s.contains(g));
        lemma_way_stays(i, available, export, p, 1);
        assert(steps(i.children(), p[0]).contains(p[1]));
        assert(cs.contains(p[1]));
    }
    lemma_nested_children(i, c, ALL@);
    assert forall|x: Name| #[trigger] cs.contains(x) implies !holds(none, x) by {
        lemma_pos(none, x);
    }
    lemma_children_shape(i, c, cs, none, no_names, no_names);
    let (children, h1, s1) = nested_group_children(i, c, cs, none, no_names, no_names);
    let hosts = hosts_map(i, c, c.shown_hosts(i, ALL@), h1).0;
    let entry = tree_entry(children, hosts, c.group_vars(i, ALL@));
    lemma_tree_entry(children, hosts, c.group_vars(i, ALL@));
    lemma_pos(none, ALL@);
    // Reading it.
    let j = ingest_document(start, ValueView::Dict(nested_tree(i, c)), path).0;
    assert(ingest_groups(start, m, 0) == start);
    if entry.len() > 0 {
        assert(m == none.push((ALL@, ValueView::Dict(entry))));
        lemma_tree_effect(i, c, ALL@, no_names, no_names, start, None);
        assert(j == ingest_group(start, ALL@, ValueView::Dict(entry), None));
    } else {
        assert(m == none);
        assert(j == start);
        assert(cs.len() == 0);
    }
    assert(content(j, g) == tree_read(i, c, g, content(start, g)));
    // What it has.
    let vars = c.group_vars(i, g);
    lemma_exported_distinct(i, c, g);
    lemma_nested_is_kept(i, c, g);
    assert(i.group_wf(g));
    lemma_filter_names(i.groups[g].hosts, |x: Name| c.available.contains(x));
    lemma_filter_names(i.groups[g].children, |x: Name| c.keeps(x));
    lemma_all_new(c.shown_hosts(i, g));
    if g != ALL@ {
        lemma_all_new(c.kept_children(i, g));
    }
    lemma_pos(none, k);
    lemma_pos(none, PRIORITY_VAR@);
    lemma_pos(vars, k);
    lemma_pos(vars, PRIORITY_VAR@);
    lemma_vars_read(none, vars, vars.len(), k);
    lemma_vars_read(none, vars, vars.len(), PRIORITY_VAR@);
    lemma_priority_read(1, vars, vars.len());
    if c.shown_hosts(i, g).contains(h) {
        assert(hs.contains(h));
        assert(vars_at(start, h) == none);
        assert(vars_at(j, h) == host_read(i, c, h, none));
        lemma_shown_distinct(i, h, export);
        lemma_overlay_get(none, shown_vars(i, h, export), k);
    }
}

} // verus!
