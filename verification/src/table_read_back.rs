//! An exported table reads back: what the flat table shows of groups and hosts is what an
//! inventory has that is read from it, as a structured document is.

use vstd::prelude::*;
use crate::assoc::{distinct, get, holds, lemma_overlay_get, lemma_pos, lemma_pos_unique, lemma_put_distinct, lemma_put_get, overlay, pos, Name};
use crate::graph::{chain, reaches, steps};
use crate::growth::{lemma_group_step, lemma_ingest_child_list, lemma_ingest_group, lemma_ingest_groups, lemma_ingest_host_map, lemma_ingest_vars};
use crate::model::{lemma_filter_names, lemma_new_wf, lemma_wf_finite, lemma_within_contains, new_inventory, priority_of, ALL, InvView, PRIORITY_VAR, UNGROUPED};
use crate::output::{hosts_map, lemma_enter, lemma_enter_more, listed_children, put_dict, put_list, scope, shown_vars, stays, table_children, table_entry, table_group, table_group_children, table_tree, texts, GroupPruning, ScopeView};
use crate::output_laws::{lemma_staying_shows, lemma_table_kept, lemma_way_stays};
use crate::parse::{ingest_child_list, ingest_document, ingest_group, ingest_groups, ingest_host_map, ingest_vars};
use crate::read_back::{content, lemma_add_group_content, lemma_all_new, lemma_children_content, lemma_entry_parts, lemma_exported_distinct, lemma_priority_read, lemma_shown_distinct, lemma_vars_content, lemma_vars_read, maps_wf, vars_at, with_entry, Content};
use crate::sanitize::{is_safe, lemma_safe_name_fixed};
use crate::tree_read_back::{lemma_host_map_content, lemma_hosts_entries, lemma_same_filter, part};
use crate::value::{ValueView, VarsView};

verus! {

// ---------------------------------------------------------------------------------------
// The shape of the table
// ---------------------------------------------------------------------------------------

/// The table's entry of a group, given the hosts that were shown before it.
pub open spec fn entry_at(i: InvView, c: ScopeView, g: Name, before: Set<Name>) -> ValueView {
    ValueView::Dict(
        table_entry(
            listed_children(i, c, g),
            hosts_map(i, c, c.shown_hosts(i, g), before).0,
            c.group_vars(i, g),
        ),
    )
}

/// The entry of a group where a host's variables stand.
pub open spec fn stands_in(
    i: InvView,
    c: ScopeView,
    out: VarsView,
    g: Name,
    before: Set<Name>,
    h: Name,
) -> bool {
    &&& get(out, g) == Some(entry_at(i, c, g, before))
    &&& c.shown_hosts(i, g).contains(h)
    &&& !before.contains(h)
}

/// A table whose entries are those of the groups entered, and in which the variables of
/// every host shown stand somewhere.
pub open spec fn tabulates(
    i: InvView,
    c: ScopeView,
    seen: Set<Name>,
    shown: Set<Name>,
    out: VarsView,
) -> bool {
    &&& distinct(out)
    &&& forall|q: Name| #[trigger]
        holds(out, q) ==> seen.contains(q) && i.groups.dom().contains(q) && exists|b: Set<Name>|
            get(out, q) == Some(#[trigger] entry_at(i, c, q, b))
    &&& forall|h: Name| #[trigger]
        shown.contains(h) ==> exists|q: Name, b: Set<Name>| #[trigger]
            stands_in(i, c, out, q, b, h)
}

/// A group has something to show in the table.
pub open spec fn has_entry(i: InvView, c: ScopeView, g: Name) -> bool {
    c.shown_hosts(i, g).len() > 0 || c.group_vars(i, g).len() > 0 || listed_children(
        i,
        c,
        g,
    ).len() > 0
}

/// What is found in an entry.
proof fn lemma_table_entry(children: Seq<Name>, hosts: VarsView, vars: VarsView)
    ensures
        get(table_entry(children, hosts, vars), "children"@) == (if children.len() > 0 {
            Some(texts(children))
        } else {
            None
        }),
        get(table_entry(children, hosts, vars), "hosts"@) == part(hosts),
        get(table_entry(children, hosts, vars), "vars"@) == part(vars),
        table_entry(children, hosts, vars).len() > 0 <==> children.len() > 0 || hosts.len() > 0
            || vars.len() > 0,
{
    reveal_strlit("vars");
    reveal_strlit("hosts");
    reveal_strlit("children");
    assert("vars"@.len() == 4 && "hosts"@.len() == 5 && "children"@.len() == 8);
    let none = Seq::<(Name, ValueView)>::empty();
    let a = put_list(none, "children"@, children);
    let b = put_dict(a, "hosts"@, hosts);
    lemma_pos(none, "hosts"@);
    lemma_pos(none, "children"@);
    lemma_pos(none, "vars"@);
    lemma_put_get(none, "children"@, texts(children), "hosts"@);
    lemma_put_get(none, "children"@, texts(children), "children"@);
    lemma_put_get(none, "children"@, texts(children), "vars"@);
    lemma_put_get(a, "hosts"@, ValueView::Dict(hosts), "hosts"@);
    lemma_put_get(a, "hosts"@, ValueView::Dict(hosts), "children"@);
    lemma_put_get(a, "hosts"@, ValueView::Dict(hosts), "vars"@);
    lemma_put_get(b, "vars"@, ValueView::Dict(vars), "hosts"@);
    lemma_put_get(b, "vars"@, ValueView::Dict(vars), "children"@);
    lemma_put_get(b, "vars"@, ValueView::Dict(vars), "vars"@);
}

/// What was entered between two sets, with everything below it, its hosts, and its entries.
pub open spec fn entered(
    i: InvView,
    c: ScopeView,
    seen: Set<Name>,
    s: Set<Name>,
    h: Set<Name>,
    o: VarsView,
) -> bool {
    &&& seen.subset_of(s)
    &&& forall|x: Name, y: Name|
        #![trigger s.contains(x), table_children(i, c, x).contains(y)]
        s.contains(x) && !seen.contains(x) && table_children(i, c, x).contains(y) ==> s.contains(y)
    &&& forall|x: Name, y: Name|
        #![trigger s.contains(x), c.shown_hosts(i, x).contains(y)]
        s.contains(x) && !seen.contains(x) && c.shown_hosts(i, x).contains(y) ==> h.contains(y)
    &&& forall|x: Name| #[trigger]
        s.contains(x) && !seen.contains(x) && has_entry(i, c, x) ==> holds(o, x)
}

/// The entries of groups entered before are kept.
pub open spec fn keeps_entries(seen: Set<Name>, g: Option<Name>, out: VarsView, o: VarsView) -> bool {
    forall|q: Name| seen.contains(q) && g != Some(q) ==> #[trigger] get(o, q) == get(out, q)
}

/// What adding a group to the table does.
proof fn lemma_table_shape(
    i: InvView,
    c: ScopeView,
    g: Name,
    seen: Set<Name>,
    shown: Set<Name>,
    out: VarsView,
)
    requires
        i.wf(),
        i.groups.dom().finite(),
        i.groups.dom().contains(g),
        seen.contains(g),
        !holds(out, g),
        tabulates(i, c, seen, shown, out),
    ensures
        ({
            let (s, h, o) = table_group(i, c, g, seen, shown, out);
            &&& tabulates(i, c, s, h, o)
            &&& entered(i, c, seen, s, h, o)
            &&& shown.subset_of(h)
            &&& keeps_entries(seen, Some(g), out, o)
            &&& forall|y: Name| #[trigger] table_children(i, c, g).contains(y) ==> s.contains(y)
            &&& forall|y: Name| #[trigger] c.shown_hosts(i, g).contains(y) ==> h.contains(y)
            &&& has_entry(i, c, g) ==> holds(o, g)
        }),
    decreases i.groups.dom().difference(seen).len(), 1nat, 0nat,
{
    let cs = table_children(i, c, g);
    assert(i.group_wf(g));
    lemma_table_kept(i, c, g);
    lemma_within_contains(i.groups[g].children, i.groups.dom());
    lemma_children_shape(i, c, cs, seen, shown, out);
    let (s, h1, o1) = table_group_children(i, c, cs, seen, shown, out);
    assert(get(o1, g) == get(out, g));
    assert(!holds(o1, g));
    let hs = c.shown_hosts(i, g);
    lemma_filter_names(i.groups[g].hosts, |x: Name| c.available.contains(x));
    assert(hs.no_duplicates());
    lemma_hosts_entries(i, c, hs, h1);
    let (hosts, h) = hosts_map(i, c, hs, h1);
    let e = entry_at(i, c, g, h1);
    let entry = table_entry(listed_children(i, c, g), hosts, c.group_vars(i, g));
    lemma_table_entry(listed_children(i, c, g), hosts, c.group_vars(i, g));
    let o = put_dict(o1, g, entry);
    lemma_put_distinct(o1, g, ValueView::Dict(entry));
    assert forall|q: Name| #[trigger] get(o, q) == (if q == g && entry.len() > 0 {
        Some(e)
    } else {
        get(o1, q)
    }) by {
        lemma_put_get(o1, g, ValueView::Dict(entry), q);
    }
    assert forall|q: Name| #[trigger] holds(o, q) implies s.contains(q) && i.groups.dom().contains(q)
        && exists|b: Set<Name>| get(o, q) == Some(#[trigger] entry_at(i, c, q, b)) by {
        assert(get(o, q) is Some);
        if q == g && entry.len() > 0 {
            assert(get(o, q) == Some(entry_at(i, c, q, h1)));
        } else {
            assert(holds(o1, q));
            let b = choose|b: Set<Name>| get(o1, q) == Some(#[trigger] entry_at(i, c, q, b));
            assert(get(o, q) == Some(entry_at(i, c, q, b)));
        }
    }
    assert forall|x: Name| #[trigger] h.contains(x) implies exists|q: Name, b: Set<Name>| #[trigger]
        stands_in(i, c, o, q, b, x) by {
        if h1.contains(x) {
            let (q, b) = choose|q: Name, b: Set<Name>| #[trigger] stands_in(i, c, o1, q, b, x);
            assert(holds(o1, q));
            assert(q != g);
            assert(get(o, q) == get(o1, q));
            assert(stands_in(i, c, o, q, b, x));
        } else {
            assert(hs.contains(x));
            assert(hosts.len() > 0);
            assert(get(o, g) == Some(e));
            assert(stands_in(i, c, o, g, h1, x));
        }
    }
    assert forall|q: Name| seen.contains(q) && q != g implies #[trigger] get(o, q) == get(
        out,
        q,
    ) by {
        assert(get(o1, q) == get(out, q));
    }
    assert forall|x: Name| #[trigger] s.contains(x) && !seen.contains(x) && has_entry(
        i,
        c,
        x,
    ) implies holds(o, x) by {
        assert(holds(o1, x));
        assert(get(o, x) == get(o1, x));
    }
    assert forall|y: Name| #[trigger] hs.contains(y) implies h.contains(y) by {
        assert(hs.to_set().contains(y));
    }
    assert(has_entry(i, c, g) ==> holds(o, g)) by {
        assert(get(o, g) is Some <==> holds(o, g));
    }
}

/// What adding some children to the table does.
proof fn lemma_children_shape(
    i: InvView,
    c: ScopeView,
    cs: Seq<Name>,
    seen: Set<Name>,
    shown: Set<Name>,
    out: VarsView,
)
    requires
        i.wf(),
        i.groups.dom().finite(),
        forall|x: Name| #[trigger] cs.contains(x) ==> i.groups.dom().contains(x),
        tabulates(i, c, seen, shown, out),
    ensures
        ({
            let (s, h, o) = table_group_children(i, c, cs, seen, shown, out);
            &&& tabulates(i, c, s, h, o)
            &&& entered(i, c, seen, s, h, o)
            &&& shown.subset_of(h)
            &&& keeps_entries(seen, None, out, o)
            &&& forall|y: Name| #[trigger] cs.contains(y) ==> s.contains(y)
        }),
    decreases i.groups.dom().difference(seen).len(), 0nat, cs.len(),
{
    if cs.len() > 0 {
        let x = cs[0];
        let rest = cs.drop_first();
        assert(cs.contains(x));
        assert forall|y: Name| #[trigger] rest.contains(y) implies cs.contains(y) by {
            let j = choose|j: int| 0 <= j < rest.len() && rest[j] == y;
            assert(cs[j + 1] == y);
        }
        assert forall|y: Name| #[trigger] cs.contains(y) implies y == x || rest.contains(y) by {
            let j = choose|j: int| 0 <= j < cs.len() && cs[j] == y;
            if j > 0 {
                assert(rest[j - 1] == y);
            }
        }
        if seen.contains(x) {
            lemma_children_shape(i, c, rest, seen, shown, out);
        } else {
            let now = seen.insert(x);
            lemma_enter(i.groups.dom(), seen, now, x);
            assert(!holds(out, x));
            assert(tabulates(i, c, now, shown, out));
            lemma_table_shape(i, c, x, now, shown, out);
            let (s1, h1, o1) = table_group(i, c, x, now, shown, out);
            lemma_enter_more(i.groups.dom(), seen, s1, x);
            assert(now.union(s1) =~= s1);
            lemma_children_shape(i, c, rest, s1, h1, o1);
            let (s, h, o) = table_group_children(i, c, rest, s1, h1, o1);
            lemma_entered_adds(i, c, seen, x, s1, h1, o1, s, h, o);
            assert forall|q: Name| seen.contains(q) implies #[trigger] get(o, q) == get(out, q) by {
                assert(now.contains(q));
                assert(s1.contains(q));
                assert(get(o1, q) == get(out, q));
            }
        }
    }
}

proof fn lemma_entered_adds(
    i: InvView,
    c: ScopeView,
    seen: Set<Name>,
    x: Name,
    s1: Set<Name>,
    h1: Set<Name>,
    o1: VarsView,
    s: Set<Name>,
    h: Set<Name>,
    o: VarsView,
)
    requires
        entered(i, c, seen.insert(x), s1, h1, o1),
        entered(i, c, s1, s, h, o),
        h1.subset_of(h),
        keeps_entries(s1, None, o1, o),
        forall|y: Name| #[trigger] table_children(i, c, x).contains(y) ==> s1.contains(y),
        forall|y: Name| #[trigger] c.shown_hosts(i, x).contains(y) ==> h1.contains(y),
        has_entry(i, c, x) ==> holds(o1, x),
    ensures
        entered(i, c, seen, s, h, o),
{
    assert(s1.contains(x)) by {
        assert(seen.insert(x).contains(x));
    }
    assert forall|a: Name, b: Name|
        #![trigger s.contains(a), table_children(i, c, a).contains(b)]
        s.contains(a) && !seen.contains(a) && table_children(i, c, a).contains(
            b,
        ) implies s.contains(b) by {
        if s1.contains(a) {
            assert(s1.contains(b));
        }
    }
    assert forall|a: Name, b: Name|
        #![trigger s.contains(a), c.shown_hosts(i, a).contains(b)]
        s.contains(a) && !seen.contains(a) && c.shown_hosts(i, a).contains(b) implies h.contains(
        b,
    ) by {
        if s1.contains(a) {
            assert(h1.contains(b));
        }
    }
    assert forall|a: Name| #[trigger] s.contains(a) && !seen.contains(a) && has_entry(
        i,
        c,
        a,
    ) implies holds(o, a) by {
        if s1.contains(a) {
            assert(holds(o1, a));
            assert(get(o, a) == get(o1, a));
        }
    }
}

// ---------------------------------------------------------------------------------------
// Reading the table
// ---------------------------------------------------------------------------------------

/// What a group holds after the table's entry for it was read.
pub open spec fn table_read(i: InvView, c: ScopeView, g: Name, held: Content) -> Content {
    with_entry(held, c.shown_hosts(i, g), listed_children(i, c, g), c.group_vars(i, g))
}

proof fn lemma_listed(i: InvView, c: ScopeView, g: Name)
    requires
        i.wf(),
        i.groups.dom().contains(g),
    ensures
        forall|k: int|
            0 <= k < listed_children(i, c, g).len() ==> is_safe(
                #[trigger] listed_children(i, c, g)[k],
            ) && listed_children(i, c, g)[k] != g,
        c.shown_hosts(i, g).no_duplicates(),
        listed_children(i, c, g).no_duplicates(),
{
    let cs = listed_children(i, c, g);
    assert(i.group_wf(g));
    lemma_table_kept(i, c, g);
    lemma_within_contains(i.groups[g].children, i.groups.dom());
    lemma_filter_names(i.groups[g].hosts, |x: Name| c.available.contains(x));
    assert forall|k: int| 0 <= k < cs.len() implies is_safe(#[trigger] cs[k]) && cs[k] != g by {
        assert(table_children(i, c, g).contains(cs[k]));
        assert(i.group_wf(cs[k]));
    }
}

/// What reading one entry does.
proof fn lemma_read_entry(i: InvView, c: ScopeView, a: InvView, g: Name, before: Set<Name>)
    requires
        i.wf(),
        i.groups.dom().contains(g),
        a.wf(),
    ensures
        ({
            let b = ingest_group(a, g, entry_at(i, c, g, before), None);
            &&& b.wf()
            &&& b.groups.dom().contains(g)
            &&& content(b, g) == table_read(i, c, g, content(a, g))
            &&& forall|q: Name| q != g ==> #[trigger] content(b, q) == content(a, q)
            &&& forall|x: Name| #[trigger]
                vars_at(b, x) == (if c.shown_hosts(i, g).contains(x) && !before.contains(x) {
                    overlay(vars_at(a, x), shown_vars(i, x, c.export))
                } else {
                    vars_at(a, x)
                })
            &&& forall|x: Name| #[trigger]
                c.shown_hosts(i, g).contains(x) ==> b.hosts.dom().contains(x)
            &&& a.hosts.dom().subset_of(b.hosts.dom())
            &&& a.groups.dom().subset_of(b.groups.dom())
        }),
{
    lemma_ingest_group(a, g, entry_at(i, c, g, before), None);
    let hs = c.shown_hosts(i, g);
    let cs = listed_children(i, c, g);
    let vs = c.group_vars(i, g);
    lemma_listed(i, c, g);
    lemma_hosts_entries(i, c, hs, before);
    let hosts = hosts_map(i, c, hs, before).0;
    let o = table_entry(cs, hosts, vs);
    lemma_table_entry(cs, hosts, vs);
    assert(i.group_wf(g));
    lemma_safe_name_fixed(g);
    let made = a.add_group(g);
    lemma_group_step(a, g);
    lemma_add_group_content(a, g);
    let with_hosts = ingest_host_map(made, g, hosts, hosts.len());
    lemma_host_map_content(i, c, made, g, hs, before, hs.len());
    lemma_ingest_host_map(made, g, hosts, hosts.len());
    assert(hs.take(hs.len() as int) =~= hs);
    let with_vars = ingest_vars(with_hosts, g, vs, vs.len());
    lemma_ingest_vars(with_hosts, g, vs, vs.len());
    lemma_vars_content(with_hosts, g, vs, vs.len());
    let l = texts(cs)->List_0;
    lemma_children_content(with_vars, g, l, cs, l.len());
    lemma_ingest_child_list(with_vars, g, l, l.len());
    assert(cs.take(cs.len() as int) =~= cs);
    let b = ingest_child_list(with_vars, g, l, l.len());
    lemma_pos(o, "children"@);
    assert(b == ingest_group(a, g, ValueView::Dict(o), None));
    assert forall|x: Name| #[trigger] hs.contains(x) implies b.hosts.dom().contains(x) by {
        let k = choose|k: int| 0 <= k < hs.len() && hs[k] == x;
        assert(with_hosts.hosts.dom().contains(hs[k]));
    }
    assert forall|x: Name| #[trigger] vars_at(b, x) == (if hs.contains(x) && !before.contains(x) {
        overlay(vars_at(a, x), shown_vars(i, x, c.export))
    } else {
        vars_at(a, x)
    }) by {
        assert(vars_at(with_vars, x) == vars_at(with_hosts, x));
        assert(vars_at(made, x) == vars_at(a, x));
    }
    assert forall|q: Name| q != g implies #[trigger] content(b, q) == content(a, q) by {
        assert(content(with_vars, q) == content(with_hosts, q));
        assert(content(made, q) == content(a, q));
    }
}

/// A table all of whose entries are those of groups.
pub open spec fn all_entries(i: InvView, c: ScopeView, o: VarsView) -> bool {
    &&& distinct(o)
    &&& forall|q: Name| #[trigger]
        holds(o, q) ==> i.groups.dom().contains(q) && exists|b: Set<Name>|
            get(o, q) == Some(#[trigger] entry_at(i, c, q, b))
}

/// What reading the first entries does to the variable `k` of a host `x` whose variables
/// stand in the entry of `g`.
proof fn lemma_read_entries(
    i: InvView,
    c: ScopeView,
    o: VarsView,
    start: InvView,
    n: nat,
    x: Name,
    k: Name,
    g: Name,
    b: Set<Name>,
)
    requires
        i.wf(),
        all_entries(i, c, o),
        start.wf(),
        n <= o.len(),
        distinct(shown_vars(i, x, c.export)),
        get(vars_at(start, x), k) is None,
        stands_in(i, c, o, g, b, x),
    ensures
        ({
            let j = ingest_groups(start, o, n);
            &&& j.wf()
            &&& get(vars_at(j, x), k) is None || get(vars_at(j, x), k) == get(
                shown_vars(i, x, c.export),
                k,
            )
            &&& pos(o, g) < n ==> j.hosts.dom().contains(x) && get(vars_at(j, x), k) == get(
                shown_vars(i, x, c.export),
                k,
            )
        }),
    decreases n,
{
    let sv = shown_vars(i, x, c.export);
    lemma_pos(o, g);
    lemma_ingest_groups(start, o, n);
    if n > 0 {
        lemma_read_entries(i, c, o, start, (n - 1) as nat, x, k, g, b);
        let a = ingest_groups(start, o, (n - 1) as nat);
        let w = o[n - 1].0;
        lemma_pos_unique(o, w, n - 1);
        assert(holds(o, w));
        let before = if w == g {
            b
        } else {
            choose|before: Set<Name>| get(o, w) == Some(#[trigger] entry_at(i, c, w, before))
        };
        assert(get(o, w) == Some(entry_at(i, c, w, before)));
        assert(o[n - 1].1 == entry_at(i, c, w, before));
        lemma_read_entry(i, c, a, w, before);
        lemma_overlay_get(vars_at(a, x), sv, k);
        let j = ingest_groups(start, o, n);
        assert(j == ingest_group(a, w, entry_at(i, c, w, before), None));
        assert(vars_at(j, x) == (if c.shown_hosts(i, w).contains(x) && !before.contains(x) {
            overlay(vars_at(a, x), sv)
        } else {
            vars_at(a, x)
        }));
        if g != w {
            assert(pos(o, g) != n - 1);
        } else {
            assert(c.shown_hosts(i, w).contains(x));
        }
    }
}

/// What reading the first entries does to a group.
proof fn lemma_read_groups(
    i: InvView,
    c: ScopeView,
    o: VarsView,
    start: InvView,
    n: nat,
    q: Name,
)
    requires
        i.wf(),
        all_entries(i, c, o),
        start.wf(),
        n <= o.len(),
    ensures
        ({
            let j = ingest_groups(start, o, n);
            &&& j.wf()
            &&& content(j, q) == (if pos(o, q) < n {
                table_read(i, c, q, content(start, q))
            } else {
                content(start, q)
            })
            &&& pos(o, q) < n ==> j.groups.dom().contains(q)
        }),
    decreases n,
{
    lemma_pos(o, q);
    lemma_ingest_groups(start, o, n);
    if n > 0 {
        lemma_read_groups(i, c, o, start, (n - 1) as nat, q);
        let a = ingest_groups(start, o, (n - 1) as nat);
        let w = o[n - 1].0;
        lemma_pos_unique(o, w, n - 1);
        assert(holds(o, w));
        let before = choose|before: Set<Name>|
            get(o, w) == Some(#[trigger] entry_at(i, c, w, before));
        assert(o[n - 1].1 == entry_at(i, c, w, before));
        lemma_read_entry(i, c, a, w, before);
        if q != w {
            assert(pos(o, q) != n - 1);
        }
    }
}

/// Under graph-aware pruning the table follows the children that stay.
proof fn lemma_table_is_kept(i: InvView, available: Set<Name>, export: bool, g: Name)
    ensures
        ({
            let c = scope(i, available, export, GroupPruning::GraphAware);
            table_children(i, c, g) == c.kept_children(i, g)
        }),
{
    let c = scope(i, available, export, GroupPruning::GraphAware);
    lemma_same_filter(
        i.groups[g].children,
        |s: Name|
            c.keeps(s) && !(c.retained is None && s == UNGROUPED@
                && i.groups[UNGROUPED@].hosts.len() == 0),
        |s: Name| c.keeps(s),
    );
}

/// Every group on the way down to one that stays is entered.
proof fn lemma_way_entered(
    i: InvView,
    available: Set<Name>,
    export: bool,
    p: Seq<Name>,
    s: Set<Name>,
    h: Set<Name>,
    o: VarsView,
    k: int,
)
    requires
        i.wf(),
        chain(i.children(), p),
        p[0] == ALL@,
        0 <= k < p.len(),
        i.groups.dom().contains(p.last()),
        stays(i, available, export, p.last()),
        ({
            let c = scope(i, available, export, GroupPruning::GraphAware);
            &&& entered(i, c, set![ALL@], s, h, o)
            &&& forall|y: Name| #[trigger] table_children(i, c, ALL@).contains(y) ==> s.contains(y)
        }),
    ensures
        s.contains(p[k]),
    decreases k,
{
    let c = scope(i, available, export, GroupPruning::GraphAware);
    if k == 0 {
        assert(set![ALL@].contains(ALL@));
    } else {
        lemma_way_entered(i, available, export, p, s, h, o, k - 1);
        lemma_way_stays(i, available, export, p, k);
        lemma_way_stays(i, available, export, p, k - 1);
        assert(steps(i.children(), p[k - 1]).contains(p[k - 1 + 1]));
        assert(i.groups[p[k - 1]].children.contains(p[k]));
        lemma_table_is_kept(i, available, export, p[k - 1]);
        lemma_filter_names(i.groups[p[k - 1]].children, |x: Name| c.keeps(x));
        assert(table_children(i, c, p[k - 1]).contains(p[k]));
        if p[k - 1] != ALL@ {
            assert(!set![ALL@].contains(p[k - 1]));
        }
    }
}

/// An exported table reads back. An inventory that is read from the flat table of another
/// has `all` and every group below it that has something visible in it or below it, with its
/// visible hosts and its children that stay, and, under export, its variables and its
/// priority; and every visible host of such a group, with the variables that the table shows
/// of it: under export its own. (The table lists no children of `all`, which has `ungrouped`
/// in any case: what has no other parent is tied to `all` again once all sources are read.)
pub proof fn law_table_reads_back(
    i: InvView,
    available: Set<Name>,
    export: bool,
    path: Seq<char>,
    g: Name,
    h: Name,
    k: Name,
)
    requires
        i.wf(),
        maps_wf(i),
        i.groups.dom().contains(g),
        g != ALL@ ==> reaches(i.children(), ALL@, g) && stays(i, available, export, g),
    ensures
        ({
            let c = scope(i, available, export, GroupPruning::GraphAware);
            let (j, e) = ingest_document(
                new_inventory(),
                ValueView::Dict(table_tree(i, c)),
                path,
            );
            let vars = c.group_vars(i, g);
            &&& e is None
            &&& j.groups.dom().contains(g)
            &&& j.groups[g].hosts == c.shown_hosts(i, g)
            &&& j.groups[g].children == (if g == ALL@ {
                seq![UNGROUPED@]
            } else {
                c.kept_children(i, g)
            })
            &&& k != PRIORITY_VAR@ ==> get(j.groups[g].vars, k) == get(vars, k)
            &&& get(j.groups[g].vars, PRIORITY_VAR@) is None
            &&& j.groups[g].priority == (match get(vars, PRIORITY_VAR@) {
                Some(x) => match priority_of(x) {
                    Some(p) => p as int,
                    None => 1,
                },
                None => 1,
            })
            &&& c.shown_hosts(i, g).contains(h) ==> j.hosts.dom().contains(h) && get(
                j.hosts[h].vars,
                k,
            ) == get(shown_vars(i, h, export), k)
        }),
{
    let c = scope(i, available, export, GroupPruning::GraphAware);
    let none = Seq::<(Name, ValueView)>::empty();
    let start = new_inventory();
    let top = set![ALL@];
    lemma_new_wf();
    lemma_wf_finite(i);
    assert forall|q: Name| !#[trigger] holds(none, q) by {
        lemma_pos(none, q);
    }
    assert(tabulates(i, c, top, Set::empty(), none));
    lemma_table_shape(i, c, ALL@, top, Set::empty(), none);
    let (s, hs, o) = table_group(i, c, ALL@, top, Set::empty(), none);
    assert(o == table_tree(i, c));
    // The group has an entry, or is `all` with nothing to show.
    if g != ALL@ {
        let p = choose|p: Seq<Name>| #[trigger]
            chain(i.children(), p) && p[0] == ALL@ && p.last() == g;
        lemma_way_entered(i, available, export, p, s, hs, o, p.len() - 1);
        assert(s.contains(g) && !top.contains(g));
        lemma_table_is_kept(i, available, export, g);
        lemma_staying_shows(i, available, export, g);
        lemma_entry_parts(c.shown_hosts(i, g), c.kept_children(i, g), c.group_vars(i, g));
        assert(has_entry(i, c, g));
        assert(holds(o, g));
    }
    assert(all_entries(i, c, o));
    // Reading it.
    lemma_pos(o, g);
    lemma_read_groups(i, c, o, start, o.len(), g);
    let j = ingest_document(start, ValueView::Dict(o), path).0;
    assert(j == ingest_groups(start, o, o.len()));
    assert(content(j, g) == table_read(i, c, g, content(start, g)));
    // What it has.
    let vars = c.group_vars(i, g);
    lemma_exported_distinct(i, c, g);
    lemma_listed(i, c, g);
    lemma_all_new(c.shown_hosts(i, g));
    if g != ALL@ {
        lemma_all_new(c.kept_children(i, g));
    }
    lemma_pos(none, k);
    lemma_pos(none, PRIORITY_VAR@);
    lemma_pos(vars, k);
    lemma_pos(vars, PRIORITY_VAR@);
    lemma_vars_read(none, vars, vars.len(), k);
    lemma_vars_read(none, vars, vars.len(), PRIORITY_VAR@);
    lemma_priority_read(1, vars, vars.len());
    assert(content(start, g).vars == none && content(start, g).hosts == Seq::<Name>::empty());
    if c.shown_hosts(i, g).contains(h) {
        assert(hs.contains(h));
        let (w, b) = choose|w: Name, b: Set<Name>| #[trigger] stands_in(i, c, o, w, b, h);
        lemma_shown_distinct(i, h, export);
        assert(vars_at(start, h) == none);
        lemma_read_entries(i, c, o, start, o.len(), h, k, w, b);
        assert(holds(o, w));
    }
}

} // verus!
