//! What holds of the output trees as a whole.

use vstd::prelude::*;
use crate::assoc::{distinct, get, holds, lemma_overlay_distinct, lemma_overlay_get, lemma_pos, lemma_put_distinct, lemma_put_get, overlay, put, Name};
use crate::graph::{chain, lemma_closed_reaches, lemma_reaches_from, lemma_reaches_self, lemma_reaches_step, reaches, steps, Edges};
use crate::model::{lemma_filter_names, lemma_wf_finite, lemma_within_contains, ALL, InvView, PRIORITY_VAR, UNGROUPED};
use crate::output::{contributes, export_vars, hosts_map, lemma_enter, lemma_enter_more, list_children, list_entry, list_group, list_tree, listed_children, meta_hostvars, nested_children, nested_tree, put_dict, put_list, scope, shown_vars, stays, table_children, table_entry, table_group, table_group_children, table_tree, texts, GroupPruning, ScopeView};
use crate::value::ValueView;
use crate::vars::{law_internal_removed, lemma_priority_is_public};

verus! {

/// The child links that a tree follows.
pub open spec fn kept_edges(i: InvView, c: ScopeView) -> Edges {
    Map::new(|g: Name| i.groups.dom().contains(g), |g: Name| c.kept_children(i, g))
}

/// A map with a non-empty map put under a key.
proof fn lemma_put_dict_get(e: Seq<(Name, ValueView)>, k: Name, m: Seq<(Name, ValueView)>, q: Name)
    ensures
        get(put_dict(e, k, m), q) == (if q == k && m.len() > 0 {
            Some(ValueView::Dict(m))
        } else {
            get(e, q)
        }),
{
    lemma_put_get(e, k, ValueView::Dict(m), q);
}

/// What adding a group and what is below it to the list does: it enters groups of the
/// inventory only, with them everything they keep below them, and gives each entered group
/// its entry.
proof fn lemma_list_group(
    i: InvView,
    c: ScopeView,
    g: Name,
    seen: Set<Name>,
    out: Seq<(Name, ValueView)>,
    k: Name,
)
    requires
        i.wf(),
        i.groups.dom().finite(),
        i.groups.dom().contains(g),
    ensures
        ({
            let (s, o) = list_group(i, c, g, seen, out);
            &&& seen.subset_of(s)
            &&& forall|x: Name| #[trigger] c.kept_children(i, g).contains(x) ==> s.contains(x)
            &&& forall|x: Name| #[trigger]
                s.contains(x) && !seen.contains(x) ==> i.groups.dom().contains(x) && reaches(
                    kept_edges(i, c),
                    g,
                    x,
                )
            &&& forall|x: Name, y: Name|
                #![trigger s.contains(x), c.kept_children(i, x).contains(y)]
                s.contains(x) && !seen.contains(x) && c.kept_children(i, x).contains(y)
                    ==> s.contains(y)
            &&& get(o, k) == (if (k == g || (s.contains(k) && !seen.contains(k))) && list_entry(
                i,
                c,
                k,
            ).len() > 0 {
                Some(ValueView::Dict(list_entry(i, c, k)))
            } else {
                get(out, k)
            })
        }),
    decreases i.groups.dom().difference(seen).len(), 1nat, 0nat,
{
    let cs = c.kept_children(i, g);
    let (s, o) = list_children(i, c, cs, seen, out);
    lemma_kept_within(i, c, g);
    lemma_list_children(i, c, cs, seen, out, k);
    lemma_put_dict_get(o, g, list_entry(i, c, g), k);
    let e = kept_edges(i, c);
    assert forall|x: Name| #[trigger] s.contains(x) && !seen.contains(x) implies reaches(
        e,
        g,
        x,
    ) by {
        let y = choose|y: Name| #[trigger] cs.contains(y) && reaches(e, y, x);
        assert(steps(e, g).contains(y));
        lemma_reaches_from(e, g, y, x);
    }
}

/// The same of some children in a row.
proof fn lemma_list_children(
    i: InvView,
    c: ScopeView,
    cs: Seq<Name>,
    seen: Set<Name>,
    out: Seq<(Name, ValueView)>,
    k: Name,
)
    requires
        i.wf(),
        i.groups.dom().finite(),
        forall|x: Name| #[trigger] cs.contains(x) ==> i.groups.dom().contains(x),
    ensures
        ({
            let (s, o) = list_children(i, c, cs, seen, out);
            &&& seen.subset_of(s)
            &&& forall|x: Name| #[trigger] cs.contains(x) ==> s.contains(x)
            &&& forall|x: Name| #[trigger]
                s.contains(x) && !seen.contains(x) ==> i.groups.dom().contains(x) && exists|y: Name|
                    #[trigger]
                    cs.contains(y) && reaches(kept_edges(i, c), y, x)
            &&& forall|x: Name, y: Name|
                #![trigger s.contains(x), c.kept_children(i, x).contains(y)]
                s.contains(x) && !seen.contains(x) && c.kept_children(i, x).contains(y)
                    ==> s.contains(y)
            &&& get(o, k) == (if s.contains(k) && !seen.contains(k) && list_entry(i, c, k).len()
                > 0 {
                Some(ValueView::Dict(list_entry(i, c, k)))
            } else {
                get(out, k)
            })
        }),
    decreases i.groups.dom().difference(seen).len(), 0nat, cs.len(),
{
    let e = kept_edges(i, c);
    let (s, o) = list_children(i, c, cs, seen, out);
    if cs.len() > 0 {
        let n = cs[0];
        let rest = cs.drop_first();
        assert(cs.contains(n));
        assert forall|x: Name| #[trigger] cs.contains(x) <==> (rest.contains(x) || x == n) by {
            if cs.contains(x) {
                let j = choose|j: int| 0 <= j < cs.len() && cs[j] == x;
                if j > 0 {
                    assert(rest[j - 1] == x);
                }
            }
            if rest.contains(x) {
                let j = choose|j: int| 0 <= j < rest.len() && rest[j] == x;
                assert(cs[j + 1] == x);
            }
        }
        assert forall|x: Name| #[trigger] rest.contains(x) implies i.groups.dom().contains(x) by {
            assert(cs.contains(x));
        }
        if seen.contains(n) {
            lemma_list_children(i, c, rest, seen, out, k);
            assert forall|x: Name| #[trigger] s.contains(x) && !seen.contains(x) implies exists|
                y: Name,
            | #[trigger] cs.contains(y) && reaches(e, y, x) by {
                let y = choose|y: Name| #[trigger] rest.contains(y) && reaches(e, y, x);
                assert(cs.contains(y) && reaches(e, y, x));
            }
        } else {
            let now = seen.insert(n);
            lemma_enter(i.groups.dom(), seen, now, n);
            lemma_list_group(i, c, n, now, out, k);
            let (s1, o1) = list_group(i, c, n, now, out);
            lemma_enter_more(i.groups.dom(), seen, s1, n);
            assert(now.union(s1) =~= s1);
            lemma_list_children(i, c, rest, s1, o1, k);
            assert forall|x: Name| #[trigger]
                s.contains(x) && !seen.contains(x) implies i.groups.dom().contains(x) && exists|
                y: Name,
            | #[trigger] cs.contains(y) && reaches(e, y, x) by {
                if x == n {
                    lemma_reaches_self(e, n);
                    assert(cs.contains(n) && reaches(e, n, x));
                } else if s1.contains(x) {
                    assert(cs.contains(n) && reaches(e, n, x));
                } else {
                    let y = choose|y: Name| #[trigger] rest.contains(y) && reaches(e, y, x);
                    assert(cs.contains(y) && reaches(e, y, x));
                }
            }
            assert forall|x: Name, y: Name|
                #![trigger s.contains(x), c.kept_children(i, x).contains(y)]
                s.contains(x) && !seen.contains(x) && c.kept_children(i, x).contains(
                    y,
                ) implies s.contains(y) by {
                if x == n {
                    assert(s1.contains(y));
                } else if s1.contains(x) {
                    assert(s1.contains(y));
                }
            }
        }
    }
}

/// The kept children of a group are groups, and children of it.
pub(crate) proof fn lemma_kept_within(i: InvView, c: ScopeView, g: Name)
    requires
        i.wf(),
        i.groups.dom().contains(g),
    ensures
        forall|x: Name| #[trigger]
            c.kept_children(i, g).contains(x) <==> (i.groups[g].children.contains(x) && c.keeps(x)),
        forall|x: Name| #[trigger]
            c.kept_children(i, g).contains(x) ==> i.groups.dom().contains(x),
{
    assert(i.group_wf(g));
    lemma_filter_names(i.groups[g].children, |s: Name| c.keeps(s));
    lemma_within_contains(i.groups[g].children, i.groups.dom());
}

/// The list has an entry for exactly those groups that can be reached from `all` through
/// kept children and have something to show, and the entry is what the group shows.
pub proof fn law_list_entries(i: InvView, c: ScopeView, g: Name)
    requires
        i.wf(),
        g != "_meta"@,
    ensures
        get(list_tree(i, c), g) == (if reaches(kept_edges(i, c), ALL@, g) && list_entry(
            i,
            c,
            g,
        ).len() > 0 {
            Some(ValueView::Dict(list_entry(i, c, g)))
        } else {
            None
        }),
{
    lemma_wf_finite(i);
    let e = kept_edges(i, c);
    let (s, o) = list_group(i, c, ALL@, Set::empty(), Seq::empty());
    lemma_list_group(i, c, ALL@, Set::empty(), Seq::empty(), g);
    lemma_put_get(
        o,
        "_meta"@,
        ValueView::Dict(
            seq![("hostvars"@, ValueView::Dict(meta_hostvars(i, c, i.host_order)))],
        ),
        g,
    );
    lemma_reaches_self(e, ALL@);
    if reaches(e, ALL@, g) {
        let t = s.insert(ALL@);
        assert forall|x: Name, y: Name|
            #![trigger t.contains(x), steps(e, x).contains(y)]
            t.contains(x) && steps(e, x).contains(y) implies t.contains(y) by {
            assert(c.kept_children(i, x).contains(y));
        }
        lemma_closed_reaches(e, t, ALL@, g);
    }
}

/// Putting a value into a map leaves it with no fewer entries, and at least one.
proof fn lemma_put_grows(e: Seq<(Name, ValueView)>, k: Name, v: ValueView)
    ensures
        put(e, k, v).len() >= e.len(),
        put(e, k, v).len() > 0,
{
    lemma_pos(e, k);
}

/// A group that stays has something to show, unless it is `all`.
pub(crate) proof fn lemma_staying_shows(i: InvView, available: Set<Name>, export: bool, g: Name)
    requires
        i.wf(),
        i.groups.dom().contains(g),
        g != ALL@,
        stays(i, available, export, g),
    ensures
        list_entry(i, scope(i, available, export, GroupPruning::GraphAware), g).len() > 0,
{
    let c = scope(i, available, export, GroupPruning::GraphAware);
    let s = choose|s: Name| #[trigger]
        reaches(i.parents(), s, g) && i.groups.dom().contains(s) && contributes(
            i,
            available,
            export,
            s,
        );
    let p = choose|p: Seq<Name>| #[trigger]
        chain(i.parents(), p) && p[0] == s && p.last() == g;
    lemma_filter_names(i.groups[g].hosts, |h: Name| c.available.contains(h));
    lemma_kept_within(i, c, g);
    if p.len() == 1 {
        if exists|h: Name| #[trigger] i.groups[g].hosts.contains(h) && available.contains(h) {
            let h = choose|h: Name| #[trigger]
                i.groups[g].hosts.contains(h) && available.contains(h);
            assert(c.shown_hosts(i, g).contains(h));
        }
    } else {
        let x = p[p.len() - 2];
        let q = p.drop_last();
        assert forall|j: int| 0 <= j < q.len() - 1 implies steps(
            i.parents(),
            #[trigger] q[j],
        ).contains(q[j + 1]) by {
            assert(steps(i.parents(), p[j]).contains(p[j + 1]));
        }
        assert(chain(i.parents(), q) && q[0] == s && q.last() == x);
        assert(reaches(i.parents(), s, x));
        assert(stays(i, available, export, x));
        assert(steps(i.parents(), p[p.len() - 2]).contains(p[p.len() - 2 + 1]));
        assert(i.groups.dom().contains(x));
        assert(i.group_wf(x));
        assert(i.groups[x].parents.contains(g));
        assert(i.groups[g].children.contains(x));
        assert(c.keeps(x));
        assert(c.kept_children(i, g).contains(x));
    }
    let hs = c.shown_hosts(i, g);
    let cs = c.kept_children(i, g);
    let e1 = put_list(Seq::empty(), "hosts"@, hs);
    let e2 = put_list(e1, "children"@, cs);
    lemma_put_grows(Seq::empty(), "hosts"@, texts(hs));
    lemma_put_grows(e1, "children"@, texts(cs));
    lemma_put_grows(e2, "vars"@, ValueView::Dict(c.group_vars(i, g)));
    assert(hs.len() > 0 ==> e1.len() > 0);
    assert(cs.len() > 0 || e1.len() > 0 ==> e2.len() > 0);
}

/// Graph-aware pruning leaves no dangling reference: where a group's entry lists a child,
/// the child has an entry of its own. (`all`, where it is itself a child of some group, may
/// be listed with nothing to show.)
pub proof fn law_no_dangling_children(
    i: InvView,
    available: Set<Name>,
    export: bool,
    g: Name,
    child: Name,
)
    requires
        i.wf(),
        g != "_meta"@,
        child != ALL@,
        holds(list_tree(i, scope(i, available, export, GroupPruning::GraphAware)), g),
        scope(i, available, export, GroupPruning::GraphAware).kept_children(i, g).contains(child),
        i.groups.dom().contains(g),
    ensures
        holds(list_tree(i, scope(i, available, export, GroupPruning::GraphAware)), child),
{
    let c = scope(i, available, export, GroupPruning::GraphAware);
    let e = kept_edges(i, c);
    law_list_entries(i, c, g);
    lemma_kept_within(i, c, g);
    assert(steps(e, g).contains(child));
    lemma_reaches_step(e, ALL@, g, child);
    assert(i.group_wf(g));
    assert(i.groups[child].parents.contains(g));
    lemma_staying_shows(i, available, export, child);
    if child == "_meta"@ {
        lemma_meta_stands(i, c);
    } else {
        law_list_entries(i, c, child);
    }
}

/// The list always has its `_meta`.
proof fn lemma_meta_stands(i: InvView, c: ScopeView)
    ensures
        holds(list_tree(i, c), "_meta"@),
{
    lemma_put_get(
        list_group(i, c, ALL@, Set::empty(), Seq::empty()).1,
        "_meta"@,
        ValueView::Dict(
            seq![("hostvars"@, ValueView::Dict(meta_hostvars(i, c, i.host_order)))],
        ),
        "_meta"@,
    );
}

/// Every group on the way down to one that stays is kept.
pub(crate) proof fn lemma_way_stays(
    i: InvView,
    available: Set<Name>,
    export: bool,
    p: Seq<Name>,
    k: int,
)
    requires
        i.wf(),
        chain(i.children(), p),
        0 <= k < p.len(),
        stays(i, available, export, p.last()),
        i.groups.dom().contains(p.last()),
    ensures
        stays(i, available, export, p[k]),
        i.groups.dom().contains(p[k]),
    decreases p.len() - k,
{
    if k < p.len() - 1 {
        lemma_way_stays(i, available, export, p, k + 1);
        assert(steps(i.children(), p[k]).contains(p[k + 1]));
        assert(i.groups.dom().contains(p[k]));
        assert(i.group_wf(p[k]));
        assert(i.groups[p[k]].children.contains(p[k + 1]));
        law_retained_with_ancestors(i, available, export, p[k + 1], p[k]);
    }
}

/// Graph-aware pruning loses nothing: every group below `all` that has something visible in
/// it, or below it, has its entry in the list.
pub proof fn law_staying_groups_are_listed(
    i: InvView,
    available: Set<Name>,
    export: bool,
    g: Name,
)
    requires
        i.wf(),
        i.groups.dom().contains(g),
        reaches(i.children(), ALL@, g),
        stays(i, available, export, g),
        g != ALL@,
        g != "_meta"@,
    ensures
        ({
            let c = scope(i, available, export, GroupPruning::GraphAware);
            get(list_tree(i, c), g) == Some(ValueView::Dict(list_entry(i, c, g)))
        }),
{
    let c = scope(i, available, export, GroupPruning::GraphAware);
    let e = kept_edges(i, c);
    let p = choose|p: Seq<Name>| #[trigger]
        chain(i.children(), p) && p[0] == ALL@ && p.last() == g;
    assert forall|k: int| 0 <= k < p.len() - 1 implies steps(e, #[trigger] p[k]).contains(
        p[k + 1],
    ) by {
        assert(steps(i.children(), p[k]).contains(p[k + 1]));
        lemma_way_stays(i, available, export, p, k);
        lemma_way_stays(i, available, export, p, k + 1);
        lemma_kept_within(i, c, p[k]);
        lemma_filter_names(i.groups[p[k]].children, |x: Name| c.keeps(x));
    }
    assert(chain(e, p) && p[0] == ALL@ && p.last() == g);
    law_list_entries(i, c, g);
    lemma_staying_shows(i, available, export, g);
}

proof fn lemma_nothing_kept(i: InvView, g: Name)
    ensures
        ({
            let c = scope(i, Set::empty(), false, GroupPruning::GraphAware);
            &&& c.kept_children(i, g) == Seq::<Name>::empty()
            &&& c.shown_hosts(i, g) == Seq::<Name>::empty()
            &&& nested_children(i, c, g) == Seq::<Name>::empty()
            &&& table_children(i, c, g) == Seq::<Name>::empty()
        }),
{
    let c = scope(i, Set::empty(), false, GroupPruning::GraphAware);
    assert forall|x: Name| !c.keeps(x) by {
        law_nothing_visible_nothing_stays(i, x);
    }
    lemma_filter_names(i.groups[g].children, |x: Name| c.keeps(x));
    lemma_filter_names(i.groups[g].hosts, |h: Name| c.available.contains(h));
    lemma_filter_names(i.groups[g].children, |x: Name| x != ALL@ && c.keeps(x));
    lemma_filter_names(
        i.groups[g].children,
        |x: Name|
            c.keeps(x) && !(c.retained is None && x == UNGROUPED@
                && i.groups[UNGROUPED@].hosts.len() == 0),
    );
    lemma_empty(c.kept_children(i, g));
    lemma_empty(c.shown_hosts(i, g));
    lemma_empty(nested_children(i, c, g));
    lemma_empty(table_children(i, c, g));
}

proof fn lemma_empty(s: Seq<Name>)
    requires
        forall|x: Name| !#[trigger] s.contains(x),
    ensures
        s == Seq::<Name>::empty(),
{
    if s.len() > 0 {
        assert(s.contains(s[0]));
    }
    assert(s =~= Seq::empty());
}

proof fn lemma_no_hostvars(i: InvView, c: ScopeView, hs: Seq<Name>)
    requires
        c.available == Set::<Name>::empty(),
    ensures
        meta_hostvars(i, c, hs) == Seq::<(Name, ValueView)>::empty(),
    decreases hs.len(),
{
    if hs.len() > 0 {
        lemma_no_hostvars(i, c, hs.drop_last());
    }
}

/// Where no host is selected and nothing is exported, graph-aware pruning leaves no group:
/// the list is a `_meta` without host variables, and the trees are empty.
pub proof fn law_empty_selection(i: InvView)
    requires
        i.wf(),
    ensures
        ({
            let c = scope(i, Set::empty(), false, GroupPruning::GraphAware);
            &&& list_tree(i, c) == seq![
                (
                    "_meta"@,
                    ValueView::Dict(seq![("hostvars"@, ValueView::Dict(Seq::empty()))]),
                ),
            ]
            &&& nested_tree(i, c) == Seq::<(Name, ValueView)>::empty()
            &&& table_tree(i, c) == Seq::<(Name, ValueView)>::empty()
        }),
{
    let c = scope(i, Set::empty(), false, GroupPruning::GraphAware);
    let none = Seq::<(Name, ValueView)>::empty();
    lemma_wf_finite(i);
    lemma_nothing_kept(i, ALL@);
    lemma_no_hostvars(i, c, i.host_order);
    assert(list_group(i, c, ALL@, Set::empty(), none).1 == none);
    lemma_pos(none, "_meta"@);
    assert(list_tree(i, c) =~= seq![
        ("_meta"@, ValueView::Dict(seq![("hostvars"@, ValueView::Dict(Seq::empty()))])),
    ]);
}

/// A group shows variables under export alone.
pub proof fn law_group_vars_under_export(i: InvView, c: ScopeView, g: Name)
    requires
        !c.export,
    ensures
        !holds(list_entry(i, c, g), "vars"@),
{
    reveal_strlit("vars");
    reveal_strlit("hosts");
    reveal_strlit("children");
    let none = Seq::<(Name, ValueView)>::empty();
    let hs = c.shown_hosts(i, g);
    let e = put_list(none, "hosts"@, hs);
    lemma_pos(none, "vars"@);
    assert("vars"@.len() == 4 && "hosts"@.len() == 5 && "children"@.len() == 8);
    lemma_put_get(none, "hosts"@, texts(hs), "vars"@);
    lemma_put_get(e, "children"@, texts(c.kept_children(i, g)), "vars"@);
}

/// An export shows a group's priority exactly where it is not 1.
pub proof fn law_exported_priority(i: InvView, g: Name)
    requires
        i.groups.dom().contains(g),
        distinct(i.groups[g].vars),
        distinct(i.groups[g].file_vars),
        !holds(i.groups[g].vars, PRIORITY_VAR@),
        !holds(i.groups[g].file_vars, PRIORITY_VAR@),
    ensures
        get(export_vars(i, g), PRIORITY_VAR@) == (if i.groups[g].priority != 1 {
            Some(ValueView::Int(i.groups[g].priority))
        } else {
            None
        }),
{
    let v = i.groups[g];
    let own = overlay(v.vars, v.file_vars);
    let p = ValueView::Int(v.priority);
    lemma_overlay_get(v.vars, v.file_vars, PRIORITY_VAR@);
    lemma_overlay_distinct(v.vars, v.file_vars);
    lemma_put_get(own, PRIORITY_VAR@, p, PRIORITY_VAR@);
    lemma_put_distinct(own, PRIORITY_VAR@, p);
    lemma_priority_is_public();
    law_internal_removed(own, PRIORITY_VAR@);
    law_internal_removed(put(own, PRIORITY_VAR@, p), PRIORITY_VAR@);
}

/// A group that contributes stays, and so does every ancestor of a group that stays.
pub proof fn law_retained_with_ancestors(
    i: InvView,
    available: Set<Name>,
    export: bool,
    g: Name,
    p: Name,
)
    requires
        i.groups.dom().contains(g),
    ensures
        contributes(i, available, export, g) ==> stays(i, available, export, g),
        stays(i, available, export, g) && i.groups[g].parents.contains(p) ==> stays(
            i,
            available,
            export,
            p,
        ),
{
    lemma_reaches_self(i.parents(), g);
    if stays(i, available, export, g) && i.groups[g].parents.contains(p) {
        let s = choose|s: Name| #[trigger]
            reaches(i.parents(), s, g) && i.groups.dom().contains(s) && contributes(
                i,
                available,
                export,
                s,
            );
        lemma_reaches_step(i.parents(), s, g, p);
    }
}

/// Without visible hosts and without export no group stays.
pub proof fn law_nothing_visible_nothing_stays(i: InvView, g: Name)
    ensures
        !stays(i, Set::empty(), false, g),
{
}

/// A visible host's variables stand at its first occurrence in a tree, and an empty map at
/// every later one; hosts that are not in the list are left as they were.
pub proof fn law_first_occurrence(i: InvView, c: ScopeView, hs: Seq<Name>, shown: Set<Name>, h: Name)
    requires
        hs.no_duplicates(),
    ensures
        hosts_map(i, c, hs, shown).1 == shown.union(hs.to_set()),
        get(hosts_map(i, c, hs, shown).0, h) == (if !hs.contains(h) {
            None
        } else if shown.contains(h) {
            Some(ValueView::Dict(Seq::empty()))
        } else {
            Some(ValueView::Dict(shown_vars(i, h, c.export)))
        }),
    decreases hs.len(),
{
    if hs.len() > 0 {
        let u = hs.drop_last();
        let n = hs.last();
        assert(u.no_duplicates()) by {
            assert forall|a: int, b: int|
                0 <= a < u.len() && 0 <= b < u.len() && a != b implies u[a] != u[b] by {
                assert(hs[a] != hs[b]);
            }
        }
        law_first_occurrence(i, c, u, shown, h);
        let (m, s) = hosts_map(i, c, u, shown);
        if u.contains(n) {
            let a = choose|a: int| 0 <= a < u.len() && u[a] == n;
            assert(hs[a] != hs[hs.len() - 1]);
        }
        let vars = if s.contains(n) {
            Seq::empty()
        } else {
            shown_vars(i, n, c.export)
        };
        lemma_put_get(m, n, ValueView::Dict(vars), h);
        assert forall|x: Name| hs.contains(x) <==> (#[trigger] u.contains(x) || x == n) by {
            if hs.contains(x) {
                let a = choose|a: int| 0 <= a < hs.len() && hs[a] == x;
                if a < u.len() {
                    assert(u[a] == x);
                }
            }
            if u.contains(x) {
                let a = choose|a: int| 0 <= a < u.len() && u[a] == x;
                assert(hs[a] == x);
            }
            if x == n {
                assert(hs[hs.len() - 1] == x);
            }
        }
        assert(u.contains(h) || !u.contains(h));
        assert forall|x: Name| #[trigger] hs.to_set().contains(x) <==> (u.to_set().contains(x) || x
            == n) by {
            assert(u.contains(x) || !u.contains(x));
        }
        assert(hosts_map(i, c, hs, shown).1 =~= shown.union(hs.to_set()));
    } else {
        assert(shown.union(hs.to_set()) =~= shown);
    }
}

/// `_meta.hostvars` holds exactly the visible hosts that have variables to show.
pub proof fn law_meta_hostvars(i: InvView, c: ScopeView, hs: Seq<Name>, h: Name)
    ensures
        get(meta_hostvars(i, c, hs), h) == (if hs.contains(h) && c.available.contains(h)
            && shown_vars(i, h, c.export).len() > 0 {
            Some(ValueView::Dict(shown_vars(i, h, c.export)))
        } else {
            None
        }),
    decreases hs.len(),
{
    if hs.len() > 0 {
        let u = hs.drop_last();
        let n = hs.last();
        law_meta_hostvars(i, c, u, h);
        lemma_put_dict_get(meta_hostvars(i, c, u), n, shown_vars(i, n, c.export), h);
        if hs.contains(h) {
            let a = choose|a: int| 0 <= a < hs.len() && hs[a] == h;
            if a < u.len() {
                assert(u[a] == h);
            }
        }
        if u.contains(h) {
            let a = choose|a: int| 0 <= a < u.len() && u[a] == h;
            assert(hs[a] == h);
        }
        if n == h {
            assert(hs[hs.len() - 1] == h);
        }
    }
}

/// Without pruning by the graph every child is listed.
pub proof fn law_strict_keeps_references(i: InvView, available: Set<Name>, export: bool, g: Name)
    ensures
        scope(i, available, export, GroupPruning::AnsibleCompatible).kept_children(i, g)
            == i.groups[g].children,
{
    let c = scope(i, available, export, GroupPruning::AnsibleCompatible);
    lemma_filter_all(i.groups[g].children, |s: Name| c.keeps(s));
}

proof fn lemma_filter_all(s: Seq<Name>, pred: spec_fn(Name) -> bool)
    requires
        forall|x: Name| #[trigger] pred(x),
    ensures
        s.filter(pred) == s,
    decreases s.len(),
{
    reveal(Seq::filter);
    if s.len() > 0 {
        lemma_filter_all(s.drop_last(), pred);
        assert(pred(s.last()));
        assert(s.drop_last().push(s.last()) =~= s);
    } else {
        assert(s.filter(pred) =~= s);
    }
}

proof fn lemma_table_group(
    i: InvView,
    c: ScopeView,
    g: Name,
    seen: Set<Name>,
    shown: Set<Name>,
    out: Seq<(Name, ValueView)>,
    k: Name,
)
    requires
        i.groups.dom().finite(),
    ensures
        holds(table_group(i, c, g, seen, shown, out).2, k) ==> holds(out, k) || k == g || c.keeps(
            k,
        ),
    decreases i.groups.dom().difference(seen).len(), 1nat, 0nat,
{
    if i.groups.dom().contains(g) {
        let cs = table_children(i, c, g);
        lemma_table_kept(i, c, g);
        lemma_table_children(i, c, cs, seen, shown, out, k);
        let (s, h1, o) = table_group_children(i, c, cs, seen, shown, out);
        let hosts = hosts_map(i, c, c.shown_hosts(i, g), h1).0;
        let entry = table_entry(listed_children(i, c, g), hosts, c.group_vars(i, g));
        lemma_put_get(o, g, ValueView::Dict(entry), k);
    }
}

/// The children that the flat table follows are children that stay.
pub(crate) proof fn lemma_table_kept(i: InvView, c: ScopeView, g: Name)
    ensures
        forall|x: Name| #[trigger]
            table_children(i, c, g).contains(x) ==> c.keeps(x) && i.groups[g].children.contains(x),
        i.groups[g].children.no_duplicates() ==> table_children(i, c, g).no_duplicates(),
{
    lemma_filter_names(
        i.groups[g].children,
        |s: Name|
            c.keeps(s) && !(c.retained is None && s == UNGROUPED@
                && i.groups[UNGROUPED@].hosts.len() == 0),
    );
}

proof fn lemma_table_children(
    i: InvView,
    c: ScopeView,
    cs: Seq<Name>,
    seen: Set<Name>,
    shown: Set<Name>,
    out: Seq<(Name, ValueView)>,
    k: Name,
)
    requires
        i.groups.dom().finite(),
        forall|x: Name| #[trigger] cs.contains(x) ==> c.keeps(x),
    ensures
        holds(table_group_children(i, c, cs, seen, shown, out).2, k) ==> holds(out, k) || c.keeps(
            k,
        ),
    decreases i.groups.dom().difference(seen).len(), 0nat, cs.len(),
{
    if cs.len() > 0 {
        let rest = cs.drop_first();
        assert(cs.contains(cs[0]));
        assert forall|x: Name| #[trigger] rest.contains(x) implies c.keeps(x) by {
            let j = choose|j: int| 0 <= j < rest.len() && rest[j] == x;
            assert(cs.contains(cs[j + 1]));
        }
        if seen.contains(cs[0]) || !i.groups.dom().contains(cs[0]) {
            lemma_table_children(i, c, rest, seen, shown, out, k);
        } else {
            let now = seen.insert(cs[0]);
            lemma_enter(i.groups.dom(), seen, now, cs[0]);
            lemma_table_group(i, c, cs[0], now, shown, out, k);
            let (s, h, o) = table_group(i, c, cs[0], now, shown, out);
            lemma_enter_more(i.groups.dom(), seen, s, cs[0]);
            lemma_table_children(i, c, rest, now.union(s), h, o, k);
        }
    }
}

/// The flat table shows no group that was pruned, `all` aside.
pub proof fn law_table_shows_what_stays(i: InvView, c: ScopeView, g: Name)
    requires
        i.wf(),
        holds(table_tree(i, c), g),
        g != ALL@,
    ensures
        c.keeps(g),
{
    let none = Seq::<(Name, ValueView)>::empty();
    lemma_wf_finite(i);
    lemma_pos(none, g);
    lemma_table_group(i, c, ALL@, set![ALL@], Set::empty(), none, g);
}

} // verus!
