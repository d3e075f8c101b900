//! What the output shows of hosts and groups, one name at a time.

use vstd::prelude::*;
use crate::assoc::{distinct, get, holds, lemma_overlay_distinct, lemma_overlay_get, lemma_pos, lemma_put_distinct, lemma_put_get, overlay, put, Name};
use crate::construct_laws::in_group;
use crate::graph::reaches;
use crate::model::{lemma_filter_names, ALL, InvView, PRIORITY_VAR};
use crate::output::{contributes, export_vars, list_entry, own_vars, put_dict, put_list, shown_vars, stays, texts, ScopeView};
use crate::value::{ValueView, VarsView};
use crate::vars::{host_layers, law_highest_layer_wins, resolved};
use crate::vars_laws::{is_internal, law_shown_variables};

verus! {

/// The variables of a host in the output, internal names aside: under export those of its
/// files and its own, else those that it gets from everywhere.
pub proof fn law_variables_of_a_host(i: InvView, h: Name, k: Name)
    requires
        i.hosts.dom().contains(h),
        distinct(i.hosts[h].vars),
        distinct(i.hosts[h].file_vars),
        forall|j: int|
            0 <= j < host_layers(i, h).len() ==> distinct(#[trigger] host_layers(i, h)[j]),
    ensures
        is_internal(k) ==> get(shown_vars(i, h, true), k) is None && get(
            shown_vars(i, h, false),
            k,
        ) is None,
        !is_internal(k) ==> get(shown_vars(i, h, false), k) == get(resolved(i, h), k),
        !is_internal(k) ==> get(shown_vars(i, h, true), k) == (if holds(i.hosts[h].file_vars, k) {
            get(i.hosts[h].file_vars, k)
        } else {
            get(i.hosts[h].vars, k)
        }),
{
    let none = Seq::<(Name, ValueView)>::empty();
    let (a, b) = (i.hosts[h].vars, i.hosts[h].file_vars);
    law_highest_layer_wins(host_layers(i, h), k);
    law_shown_variables(resolved(i, h), k);
    lemma_overlay_distinct(none, a);
    lemma_overlay_distinct(overlay(none, a), b);
    lemma_overlay_get(none, a, k);
    lemma_overlay_get(overlay(none, a), b, k);
    lemma_pos(none, k);
    law_shown_variables(own_vars(i, h), k);
}

/// The variables of a group under export, internal names aside: those of its files and its
/// own.
pub proof fn law_variables_of_a_group(i: InvView, g: Name, k: Name)
    requires
        i.groups.dom().contains(g),
        distinct(i.groups[g].vars),
        distinct(i.groups[g].file_vars),
        k != PRIORITY_VAR@,
    ensures
        get(export_vars(i, g), k) == (if is_internal(k) {
            None
        } else if holds(i.groups[g].file_vars, k) {
            get(i.groups[g].file_vars, k)
        } else {
            get(i.groups[g].vars, k)
        }),
{
    let v = i.groups[g];
    let own = overlay(v.vars, v.file_vars);
    let p = ValueView::Int(v.priority);
    lemma_overlay_get(v.vars, v.file_vars, k);
    lemma_overlay_distinct(v.vars, v.file_vars);
    lemma_put_get(own, PRIORITY_VAR@, p, k);
    lemma_put_distinct(own, PRIORITY_VAR@, p);
    law_shown_variables(own, k);
    law_shown_variables(put(own, PRIORITY_VAR@, p), k);
}

/// A group with a visible host in it, or in a group below it, stays; so does one with a
/// variable to export there. Without export no other group stays.
pub proof fn law_groups_that_stay(
    i: InvView,
    available: Set<Name>,
    export: bool,
    g: Name,
    s: Name,
    h: Name,
    k: Name,
)
    requires
        i.groups.dom().contains(s),
        reaches(i.parents(), s, g),
    ensures
        in_group(i, h, s) && available.contains(h) ==> stays(i, available, export, g),
        holds(export_vars(i, s), k) ==> stays(i, available, true, g),
        stays(i, available, false, g) ==> exists|d: Name, x: Name| #[trigger]
            reaches(i.parents(), d, g) && #[trigger] in_group(i, x, d) && available.contains(x),
{
    if in_group(i, h, s) && available.contains(h) {
        assert(i.groups[s].hosts.contains(h));
        assert(contributes(i, available, export, s));
    }
    if holds(export_vars(i, s), k) {
        lemma_pos(export_vars(i, s), k);
        assert(contributes(i, available, true, s));
    }
    if stays(i, available, false, g) {
        let d = choose|d: Name| #[trigger]
            reaches(i.parents(), d, g) && i.groups.dom().contains(d) && contributes(
                i,
                available,
                false,
                d,
            );
        let x = choose|x: Name| #[trigger] i.groups[d].hosts.contains(x) && available.contains(x);
        assert(in_group(i, x, d));
    }
}

/// A text is one of a list of names.
pub open spec fn names_text(v: Option<ValueView>, n: Name) -> bool {
    match v {
        Some(ValueView::List(a)) => a.contains(ValueView::Text(n)),
        _ => false,
    }
}

proof fn lemma_texts(ns: Seq<Name>, n: Name)
    ensures
        names_text(Some(texts(ns)), n) <==> ns.contains(n),
{
    let a = texts(ns)->List_0;
    if ns.contains(n) {
        let k = choose|k: int| 0 <= k < ns.len() && ns[k] == n;
        assert(a[k] == ValueView::Text(n));
    }
    if a.contains(ValueView::Text(n)) {
        let k = choose|k: int| 0 <= k < a.len() && a[k] == ValueView::Text(n);
        assert(ns[k] == n);
    }
}

/// What the list shows of a group: the hosts of it that are visible, but none for `all`; the
/// children that are kept; and its variables under export; no key where there is nothing.
pub proof fn law_entry_of_a_group(i: InvView, c: ScopeView, g: Name, n: Name)
    ensures
        names_text(get(list_entry(i, c, g), "hosts"@), n) <==> g != ALL@
            && i.groups[g].hosts.contains(n) && c.available.contains(n),
        names_text(get(list_entry(i, c, g), "children"@), n) <==> i.groups[g].children.contains(n)
            && c.keeps(n),
        get(list_entry(i, c, g), "vars"@) == (if c.export && export_vars(i, g).len() > 0 {
            Some(ValueView::Dict(export_vars(i, g)))
        } else {
            None
        }),
{
    reveal_strlit("vars");
    reveal_strlit("hosts");
    reveal_strlit("children");
    assert("vars"@.len() == 4 && "hosts"@.len() == 5 && "children"@.len() == 8);
    let none = Seq::<(Name, ValueView)>::empty();
    let hs = c.shown_hosts(i, g);
    let cs = c.kept_children(i, g);
    let vs = c.group_vars(i, g);
    let a = put_list(none, "hosts"@, hs);
    let b = put_list(a, "children"@, cs);
    lemma_filter_names(i.groups[g].hosts, |h: Name| c.available.contains(h));
    lemma_filter_names(i.groups[g].children, |x: Name| c.keeps(x));
    assert(hs.contains(n) <==> g != ALL@ && i.groups[g].hosts.contains(n) && c.available.contains(
        n,
    ));
    assert(cs.contains(n) <==> i.groups[g].children.contains(n) && c.keeps(n));
    lemma_texts(hs, n);
    lemma_texts(cs, n);
    lemma_entry_key(none, hs, cs, vs, "hosts"@);
    lemma_entry_key(none, hs, cs, vs, "children"@);
    lemma_entry_key(none, hs, cs, vs, "vars"@);
    assert(list_entry(i, c, g) == put_dict(b, "vars"@, vs));
}

proof fn lemma_entry_key(none: VarsView, hs: Seq<Name>, cs: Seq<Name>, vs: VarsView, q: Name)
    requires
        none == Seq::<(Name, ValueView)>::empty(),
        "hosts"@ != "children"@,
        "hosts"@ != "vars"@,
        "children"@ != "vars"@,
    ensures
        get(
            put_dict(put_list(put_list(none, "hosts"@, hs), "children"@, cs), "vars"@, vs),
            q,
        ) == (if q == "hosts"@ && hs.len() > 0 {
            Some(texts(hs))
        } else if q == "children"@ && cs.len() > 0 {
            Some(texts(cs))
        } else if q == "vars"@ && vs.len() > 0 {
            Some(ValueView::Dict(vs))
        } else {
            None
        }),
{
    let a = put_list(none, "hosts"@, hs);
    let b = put_list(a, "children"@, cs);
    lemma_pos(none, q);
    lemma_put_get(none, "hosts"@, texts(hs), q);
    lemma_put_get(a, "children"@, texts(cs), q);
    lemma_put_get(b, "vars"@, ValueView::Dict(vs), q);
}

} // verus!
