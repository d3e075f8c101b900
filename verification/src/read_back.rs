//! A list reads back: what the flat list shows of groups and hosts is what an inventory has
//! that is read from it, as a script's output is.

use vstd::prelude::*;
use crate::assoc::{distinct, get, holds, lemma_overlay_distinct, lemma_pos, lemma_pos_unique, lemma_put_distinct, lemma_put_get, overlay, pos, put, Name};
use crate::error::ErrorView;
use crate::graph::{lemma_closed_reaches, steps};
use crate::growth::{all_hosts, lemma_child_step, lemma_group_step, lemma_grows, lemma_ingest_vars, lemma_list_group, lemma_list_groups, lemma_list_hosts};
use crate::model::{lemma_deepen, lemma_filter_names, lemma_link_wf, lemma_new_wf, lemma_wf_finite, lemma_with_names, lemma_within_contains, new_inventory, priority_of, with_name, with_names, ALL, InvView, PRIORITY_VAR};
use crate::output;
use crate::output::{lemma_enter, lemma_enter_more, list_children, list_entry, list_tree, meta_hostvars, own_vars, put_dict, put_list, shown_vars, texts, ScopeView};
use crate::output_laws::{kept_edges, law_list_entries, law_meta_hostvars, lemma_kept_within};
use crate::parse::{ingest_child_list, ingest_vars};
use crate::sanitize::{is_safe, lemma_safe_name_fixed};
use crate::script::{host_vars_set, ingest_list, list_group, list_groups, list_hosts, meta_of, meta_set, normalized};
use crate::value::{ValueView, VarsView};
use crate::vars::{host_layers, law_highest_layer_wins, law_layered_groups, layered_groups, lemma_public_distinct, resolved};

verus! {

/// What a group holds, its place among the groups aside.
#[verifier::ext_equal]
pub struct Content {
    pub hosts: Seq<Name>,
    pub children: Seq<Name>,
    pub vars: VarsView,
    pub priority: int,
}

/// What a group of an inventory holds; one that is not there holds what a new one does.
pub open spec fn content(i: InvView, g: Name) -> Content {
    if i.groups.dom().contains(g) {
        let v = i.groups[g];
        Content { hosts: v.hosts, children: v.children, vars: v.vars, priority: v.priority }
    } else {
        Content { hosts: Seq::empty(), children: Seq::empty(), vars: Seq::empty(), priority: 1 }
    }
}

/// The variables of a host of an inventory; one that is not there has none.
pub open spec fn vars_at(i: InvView, h: Name) -> VarsView {
    if i.hosts.dom().contains(h) {
        i.hosts[h].vars
    } else {
        Seq::empty()
    }
}

/// Two inventories that agree on every host's variables and on what every group but `g`
/// holds.
pub open spec fn agree_but(i: InvView, j: InvView, g: Name) -> bool {
    &&& forall|q: Name| q != g ==> #[trigger] content(j, q) == content(i, q)
    &&& forall|h: Name| #[trigger] vars_at(j, h) == vars_at(i, h)
}

pub(crate) proof fn lemma_add_group_content(i: InvView, raw: Name)
    ensures
        forall|q: Name| #[trigger] content(i.add_group(raw), q) == content(i, q),
        forall|h: Name| #[trigger] vars_at(i.add_group(raw), h) == vars_at(i, h),
{
}

pub(crate) proof fn lemma_host_content(i: InvView, h: Name, g: Name)
    requires
        i.groups.dom().contains(g),
    ensures
        ({
            let j = i.add_host(h).add_host_to_group(h, g);
            &&& agree_but(i, j, g)
            &&& content(j, g) == (Content {
                hosts: with_name(content(i, g).hosts, h),
                ..content(i, g)
            })
        }),
{
}

pub(crate) proof fn lemma_group_var_content(i: InvView, g: Name, k: Name, x: ValueView)
    requires
        i.groups.dom().contains(g),
    ensures
        ({
            let j = i.set_group_var(g, k, x);
            &&& agree_but(i, j, g)
            &&& content(j, g) == (if k != PRIORITY_VAR@ {
                Content { vars: put(content(i, g).vars, k, x), ..content(i, g) }
            } else {
                match priority_of(x) {
                    Some(p) => Content { priority: p as int, ..content(i, g) },
                    None => content(i, g),
                }
            })
        }),
{
}

pub(crate) proof fn lemma_child_content(i: InvView, p: Name, c: Name)
    requires
        i.wf(),
        i.groups.dom().contains(p),
        i.groups.dom().contains(c),
        p != c,
    ensures
        ({
            let j = i.add_child(p, c);
            &&& agree_but(i, j, p)
            &&& content(j, p) == (Content {
                children: with_name(content(i, p).children, c),
                ..content(i, p)
            })
        }),
{
    let b = i.link(p, c);
    lemma_link_wf(i, p, c);
    lemma_deepen(b, p, c);
    let j = i.add_child(p, c);
    assert forall|q: Name| #[trigger] content(j, q) == content(b, q) by {
        if b.groups.dom().contains(q) {
            assert(j.groups.dom().contains(q));
        }
    }
}

// ---------------------------------------------------------------------------------------
// One entry
// ---------------------------------------------------------------------------------------

/// The names of a list of texts.
pub open spec fn is_texts(a: Seq<ValueView>, ns: Seq<Name>) -> bool {
    a.len() == ns.len() && forall|k: int| 0 <= k < a.len() ==> #[trigger] a[k] == ValueView::Text(
        ns[k],
    )
}

pub(crate) proof fn lemma_hosts_content(
    i: InvView,
    seen: Seq<Name>,
    g: Name,
    a: Seq<ValueView>,
    ns: Seq<Name>,
    n: nat,
)
    requires
        i.wf(),
        i.groups.dom().contains(g),
        is_texts(a, ns),
        n <= a.len(),
    ensures
        ({
            let (j, s) = list_hosts(i, seen, g, a, n);
            &&& j.groups.dom().contains(g)
            &&& agree_but(i, j, g)
            &&& content(j, g) == (Content {
                hosts: with_names(content(i, g).hosts, ns.take(n as int)),
                ..content(i, g)
            })
            &&& s == with_names(seen, ns.take(n as int))
        }),
    decreases n,
{
    if n == 0 {
        assert(ns.take(0) =~= Seq::empty());
    } else {
        lemma_hosts_content(i, seen, g, a, ns, (n - 1) as nat);
        let (j, s) = list_hosts(i, seen, g, a, (n - 1) as nat);
        assert(a[n - 1] == ValueView::Text(ns[n - 1]));
        lemma_host_content(j, ns[n - 1], g);
        assert(ns.take(n as int).drop_last() =~= ns.take(n - 1));
        assert(ns.take(n as int).last() == ns[n - 1]);
    }
}

/// The variables after the first `n` of some were set, the priority left out.
pub open spec fn vars_read(vars: VarsView, o: VarsView, n: nat) -> VarsView
    decreases n,
{
    if n == 0 || n > o.len() {
        vars
    } else if o[n - 1].0 == PRIORITY_VAR@ {
        vars_read(vars, o, (n - 1) as nat)
    } else {
        put(vars_read(vars, o, (n - 1) as nat), o[n - 1].0, o[n - 1].1)
    }
}

/// The priority after the first `n` of some variables were set.
pub open spec fn priority_read(priority: int, o: VarsView, n: nat) -> int
    decreases n,
{
    if n == 0 || n > o.len() {
        priority
    } else {
        let p = priority_read(priority, o, (n - 1) as nat);
        if o[n - 1].0 == PRIORITY_VAR@ {
            match priority_of(o[n - 1].1) {
                Some(x) => x as int,
                None => p,
            }
        } else {
            p
        }
    }
}

pub(crate) proof fn lemma_vars_content(i: InvView, g: Name, o: VarsView, n: nat)
    requires
        i.groups.dom().contains(g),
    ensures
        ({
            let j = ingest_vars(i, g, o, n);
            &&& j.groups.dom().contains(g)
            &&& agree_but(i, j, g)
            &&& content(j, g) == (Content {
                vars: vars_read(content(i, g).vars, o, n),
                priority: priority_read(content(i, g).priority, o, n),
                ..content(i, g)
            })
        }),
    decreases n,
{
    if 0 < n <= o.len() {
        lemma_vars_content(i, g, o, (n - 1) as nat);
        lemma_group_var_content(
            ingest_vars(i, g, o, (n - 1) as nat),
            g,
            o[n - 1].0,
            o[n - 1].1,
        );
    }
}

pub(crate) proof fn lemma_children_content(
    i: InvView,
    g: Name,
    a: Seq<ValueView>,
    cs: Seq<Name>,
    n: nat,
)
    requires
        i.wf(),
        i.groups.dom().contains(g),
        is_texts(a, cs),
        n <= a.len(),
        forall|k: int| 0 <= k < cs.len() ==> is_safe(#[trigger] cs[k]) && cs[k] != g,
    ensures
        ({
            let j = ingest_child_list(i, g, a, n);
            &&& j.wf()
            &&& j.groups.dom().contains(g)
            &&& agree_but(i, j, g)
            &&& content(j, g) == (Content {
                children: with_names(content(i, g).children, cs.take(n as int)),
                ..content(i, g)
            })
        }),
    decreases n,
{
    if n == 0 {
        assert(cs.take(0) =~= Seq::empty());
    } else {
        lemma_children_content(i, g, a, cs, (n - 1) as nat);
        let j = ingest_child_list(i, g, a, (n - 1) as nat);
        let c = cs[n - 1];
        assert(a[n - 1] == ValueView::Text(c));
        assert(is_safe(c));
        lemma_safe_name_fixed(c);
        lemma_group_step(j, c);
        lemma_add_group_content(j, c);
        let k = j.add_group(c);
        lemma_child_step(k, g, c);
        lemma_child_content(k, g, c);
        assert(cs.take(n as int).drop_last() =~= cs.take(n - 1));
        assert(cs.take(n as int).last() == c);
    }
}

/// What the list shows of a group with these hosts, children and variables.
pub open spec fn entry_of(hs: Seq<Name>, cs: Seq<Name>, vs: VarsView) -> VarsView {
    put_dict(
        put_list(put_list(Seq::empty(), "hosts"@, hs), "children"@, cs),
        "vars"@,
        vs,
    )
}

/// What is found in an entry.
pub(crate) proof fn lemma_entry_parts(hs: Seq<Name>, cs: Seq<Name>, vs: VarsView)
    ensures
        ({
            let e = entry_of(hs, cs, vs);
            &&& get(e, "hosts"@) == (if hs.len() > 0 {
                Some(texts(hs))
            } else {
                None
            })
            &&& get(e, "children"@) == (if cs.len() > 0 {
                Some(texts(cs))
            } else {
                None
            })
            &&& get(e, "vars"@) == (if vs.len() > 0 {
                Some(ValueView::Dict(vs))
            } else {
                None
            })
            &&& e.len() > 0 ==> hs.len() > 0 || cs.len() > 0 || vs.len() > 0
        }),
{
    reveal_strlit("vars");
    reveal_strlit("hosts");
    reveal_strlit("children");
    assert("vars"@.len() == 4 && "hosts"@.len() == 5 && "children"@.len() == 8);
    let none = Seq::<(Name, ValueView)>::empty();
    let a = put_list(none, "hosts"@, hs);
    let b = put_list(a, "children"@, cs);
    lemma_pos(none, "hosts"@);
    lemma_pos(none, "children"@);
    lemma_pos(none, "vars"@);
    lemma_put_get(none, "hosts"@, texts(hs), "hosts"@);
    lemma_put_get(none, "hosts"@, texts(hs), "children"@);
    lemma_put_get(none, "hosts"@, texts(hs), "vars"@);
    lemma_put_get(a, "children"@, texts(cs), "hosts"@);
    lemma_put_get(a, "children"@, texts(cs), "children"@);
    lemma_put_get(a, "children"@, texts(cs), "vars"@);
    lemma_put_get(b, "vars"@, ValueView::Dict(vs), "hosts"@);
    lemma_put_get(b, "vars"@, ValueView::Dict(vs), "children"@);
    lemma_put_get(b, "vars"@, ValueView::Dict(vs), "vars"@);
}

/// What a group holds after an entry for it was read.
pub open spec fn with_entry(c: Content, hs: Seq<Name>, cs: Seq<Name>, vs: VarsView) -> Content {
    Content {
        hosts: with_names(c.hosts, hs),
        children: with_names(c.children, cs),
        vars: vars_read(c.vars, vs, vs.len()),
        priority: priority_read(c.priority, vs, vs.len()),
    }
}

pub(crate) proof fn lemma_entry_content(
    i: InvView,
    seen: Seq<Name>,
    g: Name,
    hs: Seq<Name>,
    cs: Seq<Name>,
    vs: VarsView,
)
    requires
        i.wf(),
        is_safe(g),
        all_hosts(i, seen),
        entry_of(hs, cs, vs).len() > 0,
        forall|k: int| 0 <= k < cs.len() ==> is_safe(#[trigger] cs[k]) && cs[k] != g,
    ensures
        ({
            let (j, s) = list_group(i, seen, g, ValueView::Dict(entry_of(hs, cs, vs)));
            &&& j.groups.dom().contains(g)
            &&& agree_but(i, j, g)
            &&& content(j, g) == with_entry(content(i, g), hs, cs, vs)
            &&& s == with_names(seen, hs)
        }),
{
    let e = entry_of(hs, cs, vs);
    lemma_entry_parts(hs, cs, vs);
    lemma_safe_name_fixed(g);
    lemma_group_step(i, g);
    lemma_add_group_content(i, g);
    assert(normalized(g, ValueView::Dict(e)) == e);
    let m = i.add_group(g);
    lemma_grows(m, m, m);
    assert(hs.take(hs.len() as int) =~= hs);
    assert(cs.take(cs.len() as int) =~= cs);
    let (a, s) = match get(e, "hosts"@) {
        Some(ValueView::List(l)) => list_hosts(m, seen, g, l, l.len()),
        _ => (m, seen),
    };
    if hs.len() > 0 {
        let l = texts(hs)->List_0;
        assert(all_hosts(m, seen));
        lemma_list_hosts(m, seen, g, l, l.len());
        lemma_hosts_content(m, seen, g, l, hs, l.len());
    }
    assert(a.wf());
    let b = match get(e, "vars"@) {
        Some(ValueView::Dict(v)) => ingest_vars(a, g, v, v.len()),
        _ => a,
    };
    lemma_grows(a, a, a);
    if vs.len() > 0 {
        lemma_ingest_vars(a, g, vs, vs.len());
        lemma_vars_content(a, g, vs, vs.len());
    }
    assert(b.wf());
    if cs.len() > 0 {
        let l = texts(cs)->List_0;
        lemma_children_content(b, g, l, cs, l.len());
    }
}

// ---------------------------------------------------------------------------------------
// All entries
// ---------------------------------------------------------------------------------------

/// A list whose entries are those of `c` over `i`, apart from its `_meta`.
pub open spec fn lists_entries(i: InvView, c: ScopeView, o: VarsView) -> bool {
    &&& distinct(o)
    &&& forall|k: int|
        0 <= k < o.len() && (#[trigger] o[k]).0 != "_meta"@ ==> i.groups.dom().contains(o[k].0)
            && o[k].1 == ValueView::Dict(list_entry(i, c, o[k].0)) && list_entry(
            i,
            c,
            o[k].0,
        ).len() > 0
}

/// What a group holds after an entry for it, as `c` shows it of `i`, was read.
pub open spec fn read_entry(i: InvView, c: ScopeView, g: Name, held: Content) -> Content {
    with_entry(held, c.shown_hosts(i, g), c.kept_children(i, g), c.group_vars(i, g))
}

pub(crate) proof fn lemma_kept_safe(i: InvView, c: ScopeView, g: Name)
    requires
        i.wf(),
        i.groups.dom().contains(g),
    ensures
        forall|k: int|
            0 <= k < c.kept_children(i, g).len() ==> is_safe(#[trigger] c.kept_children(i, g)[k])
                && c.kept_children(i, g)[k] != g,
{
    let cs = c.kept_children(i, g);
    lemma_filter_names(i.groups[g].children, |x: Name| c.keeps(x));
    assert(i.group_wf(g));
    lemma_within_contains(i.groups[g].children, i.groups.dom());
    assert forall|k: int| 0 <= k < cs.len() implies is_safe(#[trigger] cs[k]) && cs[k] != g by {
        assert(cs.contains(cs[k]));
        assert(i.groups[g].children.contains(cs[k]));
        assert(i.group_wf(cs[k]));
    }
}

pub(crate) proof fn lemma_entries_content(
    i: InvView,
    c: ScopeView,
    o: VarsView,
    start: InvView,
    n: nat,
    q: Name,
)
    requires
        i.wf(),
        lists_entries(i, c, o),
        start.wf(),
        n <= o.len(),
        q != "_meta"@,
    ensures
        ({
            let (j, s) = list_groups(start, o, n);
            &&& content(j, q) == (if pos(o, q) < n {
                read_entry(i, c, q, content(start, q))
            } else {
                content(start, q)
            })
            &&& pos(o, q) < n ==> j.groups.dom().contains(q)
            &&& s.no_duplicates()
            &&& pos(o, q) < n ==> forall|h: Name| #[trigger]
                c.shown_hosts(i, q).contains(h) ==> s.contains(h)
            &&& forall|h: Name| #[trigger] vars_at(j, h) == vars_at(start, h)
        }),
    decreases n,
{
    lemma_pos(o, q);
    if n > 0 {
        lemma_entries_content(i, c, o, start, (n - 1) as nat, q);
        let (j, s) = list_groups(start, o, (n - 1) as nat);
        lemma_list_groups(start, o, (n - 1) as nat);
        let g = o[n - 1].0;
        if g != "_meta"@ {
            let hs = c.shown_hosts(i, g);
            let cs = c.kept_children(i, g);
            let vs = c.group_vars(i, g);
            assert(list_entry(i, c, g) == entry_of(hs, cs, vs));
            lemma_kept_safe(i, c, g);
            lemma_entry_content(j, s, g, hs, cs, vs);
            lemma_list_group(j, s, g, o[n - 1].1);
            lemma_with_names(s, hs);
            if q == g {
                lemma_pos_unique(o, q, n - 1);
                assert forall|h: Name| #[trigger] hs.contains(h) implies with_names(
                    s,
                    hs,
                ).contains(h) by {}
            } else {
                assert(pos(o, q) != n - 1);
            }
        } else {
            assert(pos(o, q) != n - 1);
        }
    }
}

// ---------------------------------------------------------------------------------------
// The hosts' variables
// ---------------------------------------------------------------------------------------

pub(crate) proof fn lemma_host_set(i: InvView, h: Name, vars: VarsView, n: nat, k: Name)
    requires
        i.hosts.dom().contains(h),
        distinct(vars),
        n <= vars.len(),
    ensures
        ({
            let j = host_vars_set(i, h, vars, n);
            &&& j.hosts.dom() == i.hosts.dom()
            &&& j.groups == i.groups
            &&& forall|x: Name| x != h ==> #[trigger] vars_at(j, x) == vars_at(i, x)
            &&& get(vars_at(j, h), k) == (if pos(vars, k) < n {
                get(vars, k)
            } else {
                get(vars_at(i, h), k)
            })
        }),
    decreases n,
{
    lemma_pos(vars, k);
    if n > 0 {
        lemma_host_set(i, h, vars, (n - 1) as nat, k);
        let j = host_vars_set(i, h, vars, (n - 1) as nat);
        let e = vars[n - 1];
        let u = j.set_host_var(h, e.0, e.1);
        assert(u == host_vars_set(i, h, vars, n));
        assert(u.hosts.dom() =~= j.hosts.dom());
        assert forall|x: Name| x != h implies #[trigger] vars_at(u, x) == vars_at(i, x) by {
            assert(vars_at(j, x) == vars_at(i, x));
        }
        lemma_put_get(j.hosts[h].vars, e.0, e.1, k);
        assert(vars_at(u, h) == put(vars_at(j, h), e.0, e.1));
        if k == e.0 {
            lemma_pos_unique(vars, k, n - 1);
        } else {
            assert(pos(vars, k) != n - 1);
        }
    }
}

pub(crate) proof fn lemma_meta_vars(
    i: InvView,
    hs: Seq<Name>,
    meta: VarsView,
    n: nat,
    h: Name,
    k: Name,
)
    requires
        all_hosts(i, hs),
        hs.no_duplicates(),
        n <= hs.len(),
        forall|x: Name| (#[trigger] get(meta, x)) matches Some(ValueView::Dict(v)) ==> distinct(v),
    ensures
        ({
            let j = meta_set(i, hs, meta, n);
            &&& j.hosts.dom() == i.hosts.dom()
            &&& j.groups == i.groups
            &&& get(vars_at(j, h), k) == (if hs.take(n as int).contains(h) {
                match get(meta, h) {
                    Some(ValueView::Dict(v)) => if holds(v, k) {
                        get(v, k)
                    } else {
                        get(vars_at(i, h), k)
                    },
                    _ => get(vars_at(i, h), k),
                }
            } else {
                get(vars_at(i, h), k)
            })
        }),
    decreases n,
{
    if n > 0 {
        lemma_meta_vars(i, hs, meta, (n - 1) as nat, h, k);
        let j = meta_set(i, hs, meta, (n - 1) as nat);
        let x = hs[n - 1];
        assert(hs.contains(x));
        let t = hs.take(n as int);
        let u = hs.take(n - 1);
        assert(t.contains(h) <==> u.contains(h) || h == x) by {
            if t.contains(h) {
                let a = choose|a: int| 0 <= a < t.len() && t[a] == h;
                if a < n - 1 {
                    assert(u[a] == h);
                }
            }
            if u.contains(h) {
                let a = choose|a: int| 0 <= a < u.len() && u[a] == h;
                assert(t[a] == h);
            }
            if h == x {
                assert(t[n - 1] == h);
            }
        }
        assert(!u.contains(x)) by {
            if u.contains(x) {
                let a = choose|a: int| 0 <= a < u.len() && u[a] == x;
                assert(hs[a] == hs[n - 1]);
            }
        }
        if let Some(ValueView::Dict(v)) = get(meta, x) {
            lemma_host_set(j, x, v, v.len(), k);
            lemma_pos(v, k);
        }
    }
}

// ---------------------------------------------------------------------------------------
// The list of an inventory
// ---------------------------------------------------------------------------------------

/// No map of variables has a name twice.
pub open spec fn maps_wf(i: InvView) -> bool {
    &&& forall|h: Name| #[trigger]
        i.hosts.dom().contains(h) ==> distinct(i.hosts[h].vars) && distinct(i.hosts[h].file_vars)
    &&& forall|g: Name| #[trigger]
        i.groups.dom().contains(g) ==> distinct(i.groups[g].vars) && distinct(
            i.groups[g].file_vars,
        )
}

pub(crate) proof fn lemma_list_distinct(
    i: InvView,
    c: ScopeView,
    g: Name,
    seen: Set<Name>,
    out: VarsView,
)
    requires
        i.groups.dom().finite(),
        distinct(out),
    ensures
        distinct(output::list_group(i, c, g, seen, out).1),
    decreases i.groups.dom().difference(seen).len(), 1nat, 0nat,
{
    if i.groups.dom().contains(g) {
        lemma_children_distinct(i, c, c.kept_children(i, g), seen, out);
        let (s, o) = list_children(i, c, c.kept_children(i, g), seen, out);
        lemma_put_distinct(o, g, ValueView::Dict(list_entry(i, c, g)));
    }
}

pub(crate) proof fn lemma_children_distinct(
    i: InvView,
    c: ScopeView,
    cs: Seq<Name>,
    seen: Set<Name>,
    out: VarsView,
)
    requires
        i.groups.dom().finite(),
        distinct(out),
    ensures
        distinct(list_children(i, c, cs, seen, out).1),
    decreases i.groups.dom().difference(seen).len(), 0nat, cs.len(),
{
    if cs.len() > 0 {
        if seen.contains(cs[0]) || !i.groups.dom().contains(cs[0]) {
            lemma_children_distinct(i, c, cs.drop_first(), seen, out);
        } else {
            let now = seen.insert(cs[0]);
            lemma_enter(i.groups.dom(), seen, now, cs[0]);
            let (s, o) = output::list_group(i, c, cs[0], now, out);
            lemma_list_distinct(i, c, cs[0], now, out);
            lemma_enter_more(i.groups.dom(), seen, s, cs[0]);
            lemma_children_distinct(i, c, cs.drop_first(), now.union(s), o);
        }
    }
}

/// The list of an inventory holds the entries of its groups.
pub(crate) proof fn lemma_tree_entries(i: InvView, c: ScopeView)
    requires
        i.wf(),
    ensures
        lists_entries(i, c, list_tree(i, c)),
        meta_of(list_tree(i, c)) == Some(meta_hostvars(i, c, i.host_order)),
{
    let o = list_tree(i, c);
    let none = Seq::<(Name, ValueView)>::empty();
    let hv = ValueView::Dict(meta_hostvars(i, c, i.host_order));
    let meta = seq![("hostvars"@, hv)];
    let groups = output::list_group(i, c, ALL@, Set::empty(), none).1;
    lemma_wf_finite(i);
    lemma_list_distinct(i, c, ALL@, Set::empty(), none);
    lemma_put_distinct(groups, "_meta"@, ValueView::Dict(meta));
    lemma_put_get(groups, "_meta"@, ValueView::Dict(meta), "_meta"@);
    lemma_pos_unique(meta, "hostvars"@, 0);
    let e = kept_edges(i, c);
    assert forall|k: int| 0 <= k < o.len() && (#[trigger] o[k]).0 != "_meta"@ implies i.groups.dom().contains(
        o[k].0,
    ) && o[k].1 == ValueView::Dict(list_entry(i, c, o[k].0)) && list_entry(i, c, o[k].0).len()
        > 0 by {
        let g = o[k].0;
        lemma_pos_unique(o, g, k);
        law_list_entries(i, c, g);
        assert forall|x: Name, y: Name|
            #![trigger i.groups.dom().contains(x), steps(e, x).contains(y)]
            i.groups.dom().contains(x) && steps(e, x).contains(y) implies i.groups.dom().contains(
            y,
        ) by {
            lemma_kept_within(i, c, x);
        }
        lemma_closed_reaches(e, i.groups.dom(), ALL@, g);
    }
}

pub(crate) proof fn lemma_all_new(ns: Seq<Name>)
    requires
        ns.no_duplicates(),
    ensures
        with_names(Seq::empty(), ns) == ns,
    decreases ns.len(),
{
    if ns.len() > 0 {
        let u = ns.drop_last();
        assert forall|a: int, b: int| 0 <= a < u.len() && 0 <= b < u.len() && a != b implies u[a]
            != u[b] by {
            assert(ns[a] != ns[b]);
        }
        lemma_all_new(u);
        assert(!u.contains(ns.last())) by {
            if u.contains(ns.last()) {
                let a = choose|a: int| 0 <= a < u.len() && u[a] == ns.last();
                assert(ns[a] == ns[ns.len() - 1]);
            }
        }
        assert(u.push(ns.last()) =~= ns);
    }
}

pub(crate) proof fn lemma_vars_read(vars: VarsView, o: VarsView, n: nat, k: Name)
    requires
        distinct(o),
        n <= o.len(),
    ensures
        get(vars_read(vars, o, n), k) == (if k != PRIORITY_VAR@ && pos(o, k) < n {
            get(o, k)
        } else {
            get(vars, k)
        }),
    decreases n,
{
    lemma_pos(o, k);
    if n > 0 {
        lemma_vars_read(vars, o, (n - 1) as nat, k);
        let e = o[n - 1];
        lemma_put_get(vars_read(vars, o, (n - 1) as nat), e.0, e.1, k);
        if k == e.0 {
            lemma_pos_unique(o, k, n - 1);
        } else {
            assert(pos(o, k) != n - 1);
        }
    }
}

pub(crate) proof fn lemma_priority_read(priority: int, o: VarsView, n: nat)
    requires
        distinct(o),
        n <= o.len(),
    ensures
        priority_read(priority, o, n) == (if pos(o, PRIORITY_VAR@) < n {
            match priority_of(get(o, PRIORITY_VAR@).unwrap()) {
                Some(p) => p as int,
                None => priority,
            }
        } else {
            priority
        }),
    decreases n,
{
    lemma_pos(o, PRIORITY_VAR@);
    if n > 0 {
        lemma_priority_read(priority, o, (n - 1) as nat);
        if o[n - 1].0 == PRIORITY_VAR@ {
            lemma_pos_unique(o, PRIORITY_VAR@, n - 1);
        } else {
            assert(pos(o, PRIORITY_VAR@) != n - 1);
        }
    }
}

pub(crate) proof fn lemma_shown_distinct(i: InvView, h: Name, export: bool)
    requires
        i.wf(),
        maps_wf(i),
    ensures
        distinct(shown_vars(i, h, export)),
{
    let none = Seq::<(Name, ValueView)>::empty();
    assert(distinct(none));
    if export {
        if i.hosts.dom().contains(h) {
            lemma_overlay_distinct(none, i.hosts[h].vars);
            lemma_overlay_distinct(overlay(none, i.hosts[h].vars), i.hosts[h].file_vars);
        }
        lemma_public_distinct(own_vars(i, h));
    } else {
        let ls = host_layers(i, h);
        law_layered_groups(i, h);
        assert forall|k: int| 0 <= k < ls.len() implies distinct(#[trigger] ls[k]) by {
            lemma_layer_distinct(i, h, k);
        }
        law_highest_layer_wins(ls, Seq::empty());
        lemma_public_distinct(resolved(i, h));
    }
}

pub(crate) proof fn lemma_layer_distinct(i: InvView, h: Name, k: int)
    requires
        i.wf(),
        maps_wf(i),
        0 <= k < host_layers(i, h).len(),
    ensures
        distinct(host_layers(i, h)[k]),
{
    let gs = layered_groups(i, h);
    let n = gs.len() as int;
    law_layered_groups(i, h);
    if k < 2 {
        assert(i.groups.dom().contains(ALL@));
    } else if k < 2 + n {
        assert(gs.contains(gs[k - 2]));
        assert(i.groups.dom().contains(gs[k - 2]));
    } else if k < 2 + 2 * n {
        assert(gs.contains(gs[k - 2 - n]));
        assert(i.groups.dom().contains(gs[k - 2 - n]));
    } else {
        assert(i.hosts.dom().contains(h));
    }
}

pub(crate) proof fn lemma_exported_distinct(i: InvView, c: ScopeView, g: Name)
    requires
        maps_wf(i),
    ensures
        distinct(c.group_vars(i, g)),
{
    if c.export && i.groups.dom().contains(g) {
        let v = i.groups[g];
        let own = overlay(v.vars, v.file_vars);
        lemma_overlay_distinct(v.vars, v.file_vars);
        lemma_put_distinct(own, PRIORITY_VAR@, ValueView::Int(v.priority));
        lemma_public_distinct(own);
        lemma_public_distinct(put(own, PRIORITY_VAR@, ValueView::Int(v.priority)));
    }
}

/// A list reads back. An inventory that is read from the list of another, as from a script,
/// asks for no host. It has every group that the list shows, with the hosts and children
/// that the list shows of it and, under export, its variables and its priority; and every
/// host that the list shows, with the variables that the list shows of it. (`all` has
/// `ungrouped` among its children in any case.)
pub proof fn law_list_reads_back(
    i: InvView,
    c: ScopeView,
    path: Seq<char>,
    g: Name,
    h: Name,
    k: Name,
)
    requires
        i.wf(),
        maps_wf(i),
        g != "_meta"@,
        holds(list_tree(i, c), g),
    ensures
        ({
            let (j, ask) = ingest_list(new_inventory(), ValueView::Dict(list_tree(i, c)), path);
            let vars = c.group_vars(i, g);
            &&& ask == Ok::<Seq<Name>, ErrorView>(Seq::empty())
            &&& j.groups.dom().contains(g)
            &&& j.groups[g].hosts == c.shown_hosts(i, g)
            &&& g != ALL@ ==> j.groups[g].children == c.kept_children(i, g)
            &&& k != PRIORITY_VAR@ ==> get(j.groups[g].vars, k) == get(vars, k)
            &&& get(j.groups[g].vars, PRIORITY_VAR@) is None
            &&& j.groups[g].priority == (match get(vars, PRIORITY_VAR@) {
                Some(x) => match priority_of(x) {
                    Some(p) => p as int,
                    None => 1,
                },
                None => 1,
            })
            &&& c.shown_hosts(i, g).contains(h) ==> j.hosts.dom().contains(h) && get(
                j.hosts[h].vars,
                k,
            ) == get(shown_vars(i, h, c.export), k)
        }),
{
    let o = list_tree(i, c);
    let start = new_inventory();
    let none = Seq::<(Name, ValueView)>::empty();
    lemma_new_wf();
    lemma_tree_entries(i, c);
    lemma_entries_content(i, c, o, start, o.len(), g);
    lemma_list_groups(start, o, o.len());
    let (a, hs) = list_groups(start, o, o.len());
    let meta = meta_hostvars(i, c, i.host_order);
    assert forall|x: Name| #![trigger get(meta, x)]
        get(meta, x) matches Some(ValueView::Dict(v)) ==> distinct(v) by {
        law_meta_hostvars(i, c, i.host_order, x);
        lemma_shown_distinct(i, x, c.export);
    }
    lemma_meta_vars(a, hs, meta, hs.len(), h, k);
    assert(hs.take(hs.len() as int) =~= hs);
    let j = ingest_list(start, ValueView::Dict(o), path).0;
    assert(j == meta_set(a, hs, meta, hs.len()));
    // The group.
    let vars = c.group_vars(i, g);
    lemma_exported_distinct(i, c, g);
    lemma_pos(o, g);
    assert(i.groups.dom().contains(g)) by {
        assert(o[pos(o, g)].0 == g);
    }
    assert(i.group_wf(g));
    lemma_filter_names(i.groups[g].hosts, |x: Name| c.available.contains(x));
    lemma_filter_names(i.groups[g].children, |x: Name| c.keeps(x));
    lemma_all_new(c.shown_hosts(i, g));
    lemma_all_new(c.kept_children(i, g));
    assert(content(start, g).vars == none && content(start, g).hosts == Seq::<Name>::empty());
    assert(content(j, g) == content(a, g));
    lemma_pos(none, k);
    lemma_pos(none, PRIORITY_VAR@);
    lemma_pos(vars, k);
    lemma_pos(vars, PRIORITY_VAR@);
    lemma_vars_read(none, vars, vars.len(), k);
    lemma_vars_read(none, vars, vars.len(), PRIORITY_VAR@);
    lemma_priority_read(1, vars, vars.len());
    // The host.
    if c.shown_hosts(i, g).contains(h) {
        assert(hs.contains(h));
        assert(a.hosts.dom().contains(h));
        assert(vars_at(a, h) == vars_at(start, h));
        assert(g != ALL@);
        lemma_within_contains(i.groups[g].hosts, i.hosts.dom());
        assert(i.groups[g].hosts.contains(h));
        assert(i.hosts.dom().contains(h));
        assert(i.host_order.contains(h));
        law_meta_hostvars(i, c, i.host_order, h);
        lemma_pos(shown_vars(i, h, c.export), k);
    }
}

} // verus!
