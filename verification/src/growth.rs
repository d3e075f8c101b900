//! Reading sources only adds: an inventory keeps its hosts and groups, their orders, their
//! links and their variables' names, whatever is read into it.

use vstd::prelude::*;
use crate::assoc::{get, holds, lemma_put_get, overlay, pos, Name};
use crate::constructed::{all_keyed_groups, assign, compositions, conditional_groups, config_of, construct_host, construct_hosts, constructed, join_all_keyed, join_keyed, key_names, keyed_name, ConfigView, Exprs, Halt, KeyedView};
use crate::error::ErrorView;
use crate::expr::{evaluated, lenient};
use crate::expr::number::Floats;
use crate::ini::{child_name, define_hosts, enter_section, host_definition, ini_line, ini_lines, ini_read, ini_start, left, lemma_fewer_pending, lemma_no_more_pending, name_child, pending_wf, section, section_state, set_host_vars, settle, settle_under, uncommented, variable_definition, word_end, IniState, PendingGroups, PendingView, State};
use crate::model::{law_reconcile_all_children, law_reconcile_ungrouped, lemma_add_child_wf, lemma_add_group_wf, lemma_add_host_to_group_wf, lemma_add_host_wf, lemma_deepen, lemma_filter_names, lemma_group_data_wf, lemma_host_data_wf, lemma_link_wf, lemma_special_names, lemma_with_name, with_name, with_names, ALL, GroupView, HostView, InvView, UNGROUPED};
use crate::parse::{as_map, ingest_child_list, ingest_child_map, ingest_document, ingest_group, ingest_groups, ingest_host, ingest_host_list, ingest_host_map, ingest_hosts, ingest_vars, reconciled};
use crate::sanitize::{is_safe, lemma_safe_name_fixed, lemma_safe_name_is_safe, safe_name};
use crate::script::{host_printed, host_vars_set, ingest_list, list_group, list_groups, list_hosts, meta_of, meta_set, normalized};
use crate::text::{split, trim};
use crate::value::{ValueView, VarsView};
use crate::vars::resolved_inline;

verus! {

/// `a` stands at the front of `b`.
pub open spec fn leads(a: Seq<Name>, b: Seq<Name>) -> bool {
    a.len() <= b.len() && b.take(a.len() as int) == a
}

/// Every name of `a` is one of `b`.
pub open spec fn kept(a: VarsView, b: VarsView) -> bool {
    forall|k: Name| #[trigger] holds(a, k) ==> holds(b, k)
}

/// A host with nothing of it taken away.
pub open spec fn host_grows(a: HostView, b: HostView) -> bool {
    &&& a.name == b.name
    &&& leads(a.groups, b.groups)
    &&& kept(a.vars, b.vars)
    &&& a.file_vars == b.file_vars
}

/// A group with nothing of it taken away.
pub open spec fn group_grows(a: GroupView, b: GroupView) -> bool {
    &&& a.name == b.name
    &&& a.depth <= b.depth
    &&& leads(a.hosts, b.hosts)
    &&& leads(a.children, b.children)
    &&& leads(a.parents, b.parents)
    &&& kept(a.vars, b.vars)
    &&& a.file_vars == b.file_vars
}

/// An inventory with nothing of it taken away: hosts and groups stay, and stay in order,
/// with their links and the names of their variables.
pub open spec fn grows(i: InvView, j: InvView) -> bool {
    &&& leads(i.host_order, j.host_order)
    &&& leads(i.group_order, j.group_order)
    &&& forall|h: Name| #[trigger]
        i.hosts.dom().contains(h) ==> j.hosts.dom().contains(h) && host_grows(
            i.hosts[h],
            j.hosts[h],
        )
    &&& forall|g: Name| #[trigger]
        i.groups.dom().contains(g) ==> j.groups.dom().contains(g) && group_grows(
            i.groups[g],
            j.groups[g],
        )
}

proof fn lemma_leads(a: Seq<Name>, b: Seq<Name>, c: Seq<Name>)
    ensures
        leads(a, a),
        leads(a, b) && leads(b, c) ==> leads(a, c),
{
    assert(a.take(a.len() as int) =~= a);
    if leads(a, b) && leads(b, c) {
        assert(c.take(a.len() as int) =~= b.take(a.len() as int));
    }
}

proof fn lemma_leads_with(a: Seq<Name>, n: Name)
    ensures
        leads(a, with_name(a, n)),
        leads(a, a.push(n)),
{
    assert(a.take(a.len() as int) =~= a);
    assert(a.push(n).take(a.len() as int) =~= a);
}

/// An inventory grows from itself, and growth adds up.
pub(crate) proof fn lemma_grows(i: InvView, j: InvView, k: InvView)
    ensures
        grows(i, i),
        grows(i, j) && grows(j, k) ==> grows(i, k),
{
    lemma_leads(i.host_order, j.host_order, k.host_order);
    lemma_leads(i.group_order, j.group_order, k.group_order);
    assert forall|h: Name| #[trigger] i.hosts.dom().contains(h) implies host_grows(
        i.hosts[h],
        i.hosts[h],
    ) by {
        lemma_leads(i.hosts[h].groups, j.hosts[h].groups, k.hosts[h].groups);
    }
    assert forall|g: Name| #[trigger] i.groups.dom().contains(g) implies group_grows(
        i.groups[g],
        i.groups[g],
    ) by {
        lemma_leads(i.groups[g].hosts, j.groups[g].hosts, k.groups[g].hosts);
        lemma_leads(i.groups[g].children, j.groups[g].children, k.groups[g].children);
        lemma_leads(i.groups[g].parents, j.groups[g].parents, k.groups[g].parents);
    }
    if grows(i, j) && grows(j, k) {
        assert forall|h: Name| #[trigger] i.hosts.dom().contains(h) implies k.hosts.dom().contains(
            h,
        ) && host_grows(i.hosts[h], k.hosts[h]) by {
            lemma_leads(i.hosts[h].groups, j.hosts[h].groups, k.hosts[h].groups);
            assert(j.hosts.dom().contains(h));
        }
        assert forall|g: Name| #[trigger]
            i.groups.dom().contains(g) implies k.groups.dom().contains(g) && group_grows(
            i.groups[g],
            k.groups[g],
        ) by {
            lemma_leads(i.groups[g].hosts, j.groups[g].hosts, k.groups[g].hosts);
            lemma_leads(i.groups[g].children, j.groups[g].children, k.groups[g].children);
            lemma_leads(i.groups[g].parents, j.groups[g].parents, k.groups[g].parents);
            assert(j.groups.dom().contains(g));
        }
    }
}

/// A group that grows, or one that is new.
proof fn lemma_with_group(i: InvView, g: Name, v: GroupView)
    requires
        i.groups.dom().contains(g) ==> group_grows(i.groups[g], v),
    ensures
        grows(i, i.with_group(g, v)),
{
    let j = i.with_group(g, v);
    lemma_grows(i, i, i);
    lemma_leads_with(i.group_order, g);
    assert forall|q: Name| #[trigger] i.groups.dom().contains(q) implies j.groups.dom().contains(q)
        && group_grows(i.groups[q], j.groups[q]) by {
        assert(group_grows(i.groups[q], i.groups[q]));
    }
    assert forall|h: Name| #[trigger] i.hosts.dom().contains(h) implies host_grows(
        i.hosts[h],
        j.hosts[h],
    ) by {
        assert(host_grows(i.hosts[h], i.hosts[h]));
    }
}

/// A host that grows, or one that is new.
proof fn lemma_with_host(i: InvView, h: Name, v: HostView)
    requires
        i.hosts.dom().contains(h) ==> host_grows(i.hosts[h], v),
    ensures
        grows(i, i.with_host(h, v)),
{
    let j = i.with_host(h, v);
    lemma_grows(i, i, i);
    lemma_leads_with(i.host_order, h);
    assert forall|q: Name| #[trigger] i.hosts.dom().contains(q) implies j.hosts.dom().contains(q)
        && host_grows(i.hosts[q], j.hosts[q]) by {
        assert(host_grows(i.hosts[q], i.hosts[q]));
    }
    assert forall|g: Name| #[trigger] i.groups.dom().contains(g) implies group_grows(
        i.groups[g],
        j.groups[g],
    ) by {
        assert(group_grows(i.groups[g], i.groups[g]));
    }
}

// ---------------------------------------------------------------------------------------
// Steps
// ---------------------------------------------------------------------------------------

/// A step from a well-formed inventory to another that only adds.
pub open spec fn adds(i: InvView, j: InvView) -> bool {
    j.wf() && grows(i, j)
}

pub(crate) proof fn lemma_adds(i: InvView, j: InvView, k: InvView)
    requires
        adds(i, j),
        adds(j, k),
    ensures
        adds(i, k),
{
    lemma_grows(i, j, k);
}

pub(crate) proof fn lemma_group_step(i: InvView, raw: Name)
    requires
        i.wf(),
    ensures
        adds(i, i.add_group(raw)),
        i.add_group(raw).groups.dom().contains(safe_name(raw)),
{
    lemma_add_group_wf(i, raw);
    lemma_grows(i, i, i);
    if !i.groups.dom().contains(safe_name(raw)) {
        lemma_with_group(i, safe_name(raw), i.add_group(raw).groups[safe_name(raw)]);
    }
}

pub(crate) proof fn lemma_child_step(i: InvView, p: Name, c: Name)
    requires
        i.wf(),
        i.groups.dom().contains(p),
        i.groups.dom().contains(c),
    ensures
        adds(i, i.add_child(p, c)),
{
    lemma_add_child_wf(i, p, c);
    lemma_grows(i, i, i);
    if p != c {
        let v = i.groups[p];
        let a = i.with_group(p, GroupView { children: with_name(v.children, c), ..v });
        assert(group_grows(v, v));
        lemma_leads_with(v.children, c);
        lemma_with_group(i, p, a.groups[p]);
        let w = a.groups[c];
        lemma_leads_with(w.parents, p);
        lemma_grows(a, a, a);
        assert(group_grows(w, w));
        let b = i.link(p, c);
        lemma_with_group(a, c, b.groups[c]);
        lemma_grows(i, a, b);
        lemma_link_wf(i, p, c);
        lemma_deepen(b, p, c);
        let j = i.add_child(p, c);
        lemma_grows(b, b, b);
        assert forall|g: Name| #[trigger] b.groups.dom().contains(g) implies j.groups.dom().contains(
            g,
        ) && group_grows(b.groups[g], j.groups[g]) by {
            assert(group_grows(b.groups[g], b.groups[g]));
        }
        assert(grows(b, j));
        lemma_grows(i, b, j);
    }
}

pub(crate) proof fn lemma_host_step(i: InvView, h: Name, g: Name)
    requires
        i.wf(),
        i.groups.dom().contains(g),
    ensures
        adds(i, i.add_host(h).add_host_to_group(h, g)),
        i.add_host(h).add_host_to_group(h, g).hosts.dom().contains(h),
{
    let a = i.add_host(h);
    lemma_add_host_wf(i, h);
    lemma_grows(i, i, i);
    if !i.hosts.dom().contains(h) {
        lemma_with_host(i, h, a.hosts[h]);
    }
    lemma_add_host_to_group_wf(a, h, g);
    lemma_grows(a, a, a);
    let v = a.groups[g];
    let b = a.with_group(g, GroupView { hosts: with_name(v.hosts, h), ..v });
    assert(group_grows(v, v));
    lemma_leads_with(v.hosts, h);
    lemma_with_group(a, g, b.groups[g]);
    lemma_grows(b, b, b);
    let w = b.hosts[h];
    assert(b.hosts.dom().contains(h));
    assert(host_grows(w, w));
    lemma_leads_with(w.groups, g);
    lemma_with_host(b, h, HostView { groups: with_name(w.groups, g), ..w });
    lemma_grows(a, b, a.add_host_to_group(h, g));
    lemma_grows(i, a, a.add_host_to_group(h, g));
}

pub(crate) proof fn lemma_group_var_step(i: InvView, g: Name, k: Name, x: ValueView)
    requires
        i.wf(),
        i.groups.dom().contains(g),
    ensures
        adds(i, i.set_group_var(g, k, x)),
{
    let j = i.set_group_var(g, k, x);
    lemma_grows(i, i, i);
    let v = i.groups[g];
    assert(i.group_wf(g));
    assert(group_grows(v, v));
    if j != i {
        assert forall|q: Name| #[trigger] holds(v.vars, q) implies holds(j.groups[g].vars, q) by {
            lemma_put_get(v.vars, k, x, q);
        }
        lemma_with_group(i, g, j.groups[g]);
        lemma_group_data_wf(i, g, j.groups[g]);
    }
}

proof fn lemma_host_vars_step(i: InvView, h: Name, vars: VarsView)
    requires
        i.wf(),
        i.hosts.dom().contains(h),
        kept(i.hosts[h].vars, vars),
    ensures
        adds(i, i.with_host(h, HostView { vars, ..i.hosts[h] })),
{
    let v = HostView { vars, ..i.hosts[h] };
    lemma_grows(i, i, i);
    assert(host_grows(i.hosts[h], i.hosts[h]));
    lemma_with_host(i, h, v);
    lemma_host_data_wf(i, h, v);
}

pub(crate) proof fn lemma_host_var_step(i: InvView, h: Name, k: Name, x: ValueView)
    requires
        i.wf(),
        i.hosts.dom().contains(h),
    ensures
        adds(i, i.set_host_var(h, k, x)),
{
    let v = i.hosts[h];
    let vars = i.set_host_var(h, k, x).hosts[h].vars;
    assert forall|q: Name| #[trigger] holds(v.vars, q) implies holds(vars, q) by {
        lemma_put_get(v.vars, k, x, q);
    }
    lemma_host_vars_step(i, h, vars);
}

proof fn lemma_overlay_keeps(a: VarsView, b: VarsView)
    ensures
        kept(a, overlay(a, b)),
    decreases b.len(),
{
    if b.len() > 0 {
        let u = overlay(a, b.drop_last());
        lemma_overlay_keeps(a, b.drop_last());
        assert forall|q: Name| #[trigger] holds(a, q) implies holds(overlay(a, b), q) by {
            assert(holds(u, q));
            lemma_put_get(u, b.last().0, b.last().1, q);
        }
    }
}

// ---------------------------------------------------------------------------------------
// Structured documents
// ---------------------------------------------------------------------------------------

pub(crate) proof fn lemma_ingest_host(i: InvView, g: Name, h: Name, vars: Option<VarsView>)
    requires
        i.wf(),
        i.groups.dom().contains(g),
    ensures
        adds(i, ingest_host(i, g, h, vars)),
{
    let j = i.add_host(h).add_host_to_group(h, g);
    lemma_host_step(i, h, g);
    if let Some(v) = vars {
        lemma_overlay_keeps(j.hosts[h].vars, v);
        lemma_host_vars_step(j, h, overlay(j.hosts[h].vars, v));
        lemma_adds(i, j, ingest_host(i, g, h, vars));
    }
}

pub(crate) proof fn lemma_ingest_host_map(i: InvView, g: Name, o: VarsView, n: nat)
    requires
        i.wf(),
        i.groups.dom().contains(g),
    ensures
        adds(i, ingest_host_map(i, g, o, n)),
    decreases n,
{
    lemma_grows(i, i, i);
    if 0 < n <= o.len() {
        let j = ingest_host_map(i, g, o, (n - 1) as nat);
        lemma_ingest_host_map(i, g, o, (n - 1) as nat);
        lemma_ingest_host(j, g, o[n - 1].0, as_map(o[n - 1].1));
        lemma_adds(i, j, ingest_host_map(i, g, o, n));
    }
}

pub(crate) proof fn lemma_ingest_host_list(i: InvView, g: Name, a: Seq<ValueView>, n: nat)
    requires
        i.wf(),
        i.groups.dom().contains(g),
    ensures
        adds(i, ingest_host_list(i, g, a, n)),
    decreases n,
{
    lemma_grows(i, i, i);
    if 0 < n <= a.len() {
        let j = ingest_host_list(i, g, a, (n - 1) as nat);
        lemma_ingest_host_list(i, g, a, (n - 1) as nat);
        if let ValueView::Text(h) = a[n - 1] {
            lemma_ingest_host(j, g, h, None);
            lemma_adds(i, j, ingest_host_list(i, g, a, n));
        }
    }
}

pub(crate) proof fn lemma_ingest_vars(i: InvView, g: Name, o: VarsView, n: nat)
    requires
        i.wf(),
        i.groups.dom().contains(g),
    ensures
        adds(i, ingest_vars(i, g, o, n)),
    decreases n,
{
    lemma_grows(i, i, i);
    if 0 < n <= o.len() {
        let j = ingest_vars(i, g, o, (n - 1) as nat);
        lemma_ingest_vars(i, g, o, (n - 1) as nat);
        lemma_group_var_step(j, g, o[n - 1].0, o[n - 1].1);
        lemma_adds(i, j, ingest_vars(i, g, o, n));
    }
}

pub(crate) proof fn lemma_ingest_child_list(i: InvView, g: Name, a: Seq<ValueView>, n: nat)
    requires
        i.wf(),
        i.groups.dom().contains(g),
    ensures
        adds(i, ingest_child_list(i, g, a, n)),
    decreases n,
{
    lemma_grows(i, i, i);
    if 0 < n <= a.len() {
        let j = ingest_child_list(i, g, a, (n - 1) as nat);
        lemma_ingest_child_list(i, g, a, (n - 1) as nat);
        if let ValueView::Text(c) = a[n - 1] {
            lemma_group_step(j, c);
            let k = j.add_group(c);
            lemma_child_step(k, g, safe_name(c));
            lemma_adds(j, k, ingest_child_list(i, g, a, n));
            lemma_adds(i, j, ingest_child_list(i, g, a, n));
        }
    }
}

pub(crate) proof fn lemma_ingest_group(i: InvView, raw: Name, def: ValueView, parent: Option<Name>)
    requires
        i.wf(),
        parent matches Some(p) ==> i.groups.dom().contains(p),
    ensures
        adds(i, ingest_group(i, raw, def, parent)),
    decreases def, 1nat,
{
    let g = safe_name(raw);
    let made = i.add_group(raw);
    lemma_group_step(i, raw);
    let linked = match parent {
        Some(p) => made.add_child(p, g),
        None => made,
    };
    if let Some(p) = parent {
        lemma_child_step(made, p, g);
        lemma_adds(i, made, linked);
    }
    assert(adds(i, linked) && linked.groups.dom().contains(g));
    if let ValueView::Dict(o) = def {
        let with_hosts = match get(o, "hosts"@) {
            Some(v) => ingest_hosts(linked, g, v),
            None => linked,
        };
        lemma_grows(linked, linked, linked);
        match get(o, "hosts"@) {
            Some(ValueView::Dict(m)) => lemma_ingest_host_map(linked, g, m, m.len()),
            Some(ValueView::List(a)) => lemma_ingest_host_list(linked, g, a, a.len()),
            _ => {},
        }
        assert(adds(linked, with_hosts));
        lemma_adds(i, linked, with_hosts);
        let with_vars = match get(o, "vars"@) {
            Some(ValueView::Dict(v)) => ingest_vars(with_hosts, g, v, v.len()),
            _ => with_hosts,
        };
        lemma_grows(with_hosts, with_hosts, with_hosts);
        if let Some(ValueView::Dict(v)) = get(o, "vars"@) {
            lemma_ingest_vars(with_hosts, g, v, v.len());
        }
        assert(adds(with_hosts, with_vars));
        lemma_adds(i, with_hosts, with_vars);
        let at = pos(o, "children"@);
        let done = ingest_group(i, raw, def, parent);
        if 0 <= at < o.len() {
            match o[at].1 {
                ValueView::Dict(c) => {
                    assert(decreases_to!(def => c));
                    lemma_ingest_child_map(with_vars, g, c, c.len());
                    assert(done == ingest_child_map(with_vars, g, c, c.len()));
                    lemma_adds(i, with_vars, done);
                },
                ValueView::List(a) => {
                    lemma_ingest_child_list(with_vars, g, a, a.len());
                    assert(done == ingest_child_list(with_vars, g, a, a.len()));
                    lemma_adds(i, with_vars, done);
                },
                _ => {
                    assert(done == with_vars);
                },
            }
        } else {
            assert(done == with_vars);
        }
    }
}

pub(crate) proof fn lemma_ingest_child_map(i: InvView, g: Name, c: VarsView, n: nat)
    requires
        i.wf(),
        i.groups.dom().contains(g),
    ensures
        adds(i, ingest_child_map(i, g, c, n)),
    decreases c, n,
{
    lemma_grows(i, i, i);
    if 0 < n <= c.len() {
        let j = ingest_child_map(i, g, c, (n - 1) as nat);
        let e = c[n - 1];
        lemma_ingest_child_map(i, g, c, (n - 1) as nat);
        lemma_ingest_group(j, e.0, e.1, Some(g));
        lemma_adds(i, j, ingest_child_map(i, g, c, n));
    }
}

pub(crate) proof fn lemma_ingest_groups(i: InvView, o: VarsView, n: nat)
    requires
        i.wf(),
    ensures
        adds(i, ingest_groups(i, o, n)),
    decreases n,
{
    lemma_grows(i, i, i);
    if 0 < n <= o.len() {
        let j = ingest_groups(i, o, (n - 1) as nat);
        lemma_ingest_groups(i, o, (n - 1) as nat);
        lemma_ingest_group(j, o[n - 1].0, o[n - 1].1, None);
        lemma_adds(i, j, ingest_groups(i, o, n));
    }
}

/// Reading a structured document takes nothing away from an inventory.
pub proof fn law_documents_add(i: InvView, v: ValueView, path: Seq<char>)
    requires
        i.wf(),
    ensures
        grows(i, ingest_document(i, v, path).0),
{
    lemma_grows(i, i, i);
    if let ValueView::Dict(o) = v {
        lemma_ingest_groups(i, o, o.len());
    }
}

// ---------------------------------------------------------------------------------------
// Scripts
// ---------------------------------------------------------------------------------------

/// Every one of some names is that of a host.
pub open spec fn all_hosts(i: InvView, hs: Seq<Name>) -> bool {
    forall|k: Name| #[trigger] hs.contains(k) ==> i.hosts.dom().contains(k)
}

pub(crate) proof fn lemma_list_hosts(i: InvView, seen: Seq<Name>, g: Name, a: Seq<ValueView>, n: nat)
    requires
        i.wf(),
        i.groups.dom().contains(g),
        all_hosts(i, seen),
    ensures
        adds(i, list_hosts(i, seen, g, a, n).0),
        all_hosts(list_hosts(i, seen, g, a, n).0, list_hosts(i, seen, g, a, n).1),
    decreases n,
{
    lemma_grows(i, i, i);
    if 0 < n <= a.len() {
        let (j, s) = list_hosts(i, seen, g, a, (n - 1) as nat);
        lemma_list_hosts(i, seen, g, a, (n - 1) as nat);
        if let ValueView::Text(h) = a[n - 1] {
            let k = j.add_host(h).add_host_to_group(h, g);
            lemma_host_step(j, h, g);
            lemma_adds(i, j, k);
            lemma_with_name(s, h);
            assert(all_hosts(k, with_name(s, h)));
        }
    }
}

pub(crate) proof fn lemma_list_group(i: InvView, seen: Seq<Name>, group: Name, data: ValueView)
    requires
        i.wf(),
        all_hosts(i, seen),
    ensures
        adds(i, list_group(i, seen, group, data).0),
        all_hosts(list_group(i, seen, group, data).0, list_group(i, seen, group, data).1),
{
    let g = safe_name(group);
    let o = normalized(group, data);
    let m = i.add_group(group);
    lemma_group_step(i, group);
    lemma_grows(m, m, m);
    assert(all_hosts(m, seen));
    let (a, s) = match get(o, "hosts"@) {
        Some(ValueView::List(l)) => list_hosts(m, seen, g, l, l.len()),
        _ => (m, seen),
    };
    if let Some(ValueView::List(l)) = get(o, "hosts"@) {
        lemma_list_hosts(m, seen, g, l, l.len());
    }
    assert(adds(m, a) && all_hosts(a, s));
    lemma_adds(i, m, a);
    lemma_grows(a, a, a);
    let b = match get(o, "vars"@) {
        Some(ValueView::Dict(v)) => ingest_vars(a, g, v, v.len()),
        _ => a,
    };
    if let Some(ValueView::Dict(v)) = get(o, "vars"@) {
        lemma_ingest_vars(a, g, v, v.len());
    }
    assert(adds(a, b));
    lemma_adds(i, a, b);
    lemma_grows(b, b, b);
    if let Some(ValueView::List(l)) = get(o, "children"@) {
        lemma_ingest_child_list(b, g, l, l.len());
        lemma_adds(i, b, list_group(i, seen, group, data).0);
    }
}

pub(crate) proof fn lemma_list_groups(i: InvView, o: VarsView, n: nat)
    requires
        i.wf(),
    ensures
        adds(i, list_groups(i, o, n).0),
        all_hosts(list_groups(i, o, n).0, list_groups(i, o, n).1),
    decreases n,
{
    lemma_grows(i, i, i);
    if 0 < n <= o.len() {
        let (j, s) = list_groups(i, o, (n - 1) as nat);
        lemma_list_groups(i, o, (n - 1) as nat);
        if o[n - 1].0 != "_meta"@ {
            lemma_list_group(j, s, o[n - 1].0, o[n - 1].1);
            lemma_adds(i, j, list_groups(i, o, n).0);
        }
    }
}

proof fn lemma_host_vars_set(i: InvView, h: Name, vars: VarsView, n: nat)
    requires
        i.wf(),
        i.hosts.dom().contains(h),
    ensures
        adds(i, host_vars_set(i, h, vars, n)),
    decreases n,
{
    lemma_grows(i, i, i);
    if 0 < n <= vars.len() {
        let j = host_vars_set(i, h, vars, (n - 1) as nat);
        lemma_host_vars_set(i, h, vars, (n - 1) as nat);
        lemma_host_var_step(j, h, vars[n - 1].0, vars[n - 1].1);
        lemma_adds(i, j, host_vars_set(i, h, vars, n));
    }
}

proof fn lemma_meta_set(i: InvView, hs: Seq<Name>, meta: VarsView, n: nat)
    requires
        i.wf(),
        all_hosts(i, hs),
    ensures
        adds(i, meta_set(i, hs, meta, n)),
    decreases n,
{
    lemma_grows(i, i, i);
    if 0 < n <= hs.len() {
        let j = meta_set(i, hs, meta, (n - 1) as nat);
        lemma_meta_set(i, hs, meta, (n - 1) as nat);
        assert(hs.contains(hs[n - 1]));
        lemma_grows(j, j, j);
        if let Some(ValueView::Dict(o)) = get(meta, hs[n - 1]) {
            lemma_host_vars_set(j, hs[n - 1], o, o.len());
        }
        lemma_adds(i, j, meta_set(i, hs, meta, n));
    }
}

/// What scripts print takes nothing away from an inventory; and every host whose variables
/// are still to be asked for is in it.
pub proof fn law_scripts_add(i: InvView, v: ValueView, path: Seq<char>)
    requires
        i.wf(),
    ensures
        grows(i, ingest_list(i, v, path).0),
        ingest_list(i, v, path).1 matches Ok(hs) ==> forall|h: Name| #[trigger]
            hs.contains(h) ==> ingest_list(i, v, path).0.hosts.dom().contains(h),
{
    lemma_grows(i, i, i);
    if let ValueView::Dict(o) = v {
        let (j, hs) = list_groups(i, o, o.len());
        lemma_list_groups(i, o, o.len());
        if let Some(m) = meta_of(o) {
            lemma_meta_set(j, hs, m, hs.len());
            lemma_adds(i, j, meta_set(j, hs, m, hs.len()));
        }
    }
}

/// What a script printed for one host takes nothing away from an inventory.
pub proof fn law_host_output_adds(i: InvView, h: Name, v: ValueView)
    requires
        i.wf(),
        i.hosts.dom().contains(h),
    ensures
        grows(i, host_printed(i, h, Some(v))),
{
    lemma_grows(i, i, i);
    if let ValueView::Dict(o) = v {
        lemma_host_vars_set(i, h, o, o.len());
    }
}

// ---------------------------------------------------------------------------------------
// INI files
// ---------------------------------------------------------------------------------------

pub(crate) proof fn lemma_settle(i: InvView, p: PendingGroups, gone: Set<Name>, g: Name)
    requires
        i.wf(),
        pending_wf(p),
        is_safe(g),
    ensures
        adds(i, settle(i, p, gone, g).0),
    decreases p.dom().difference(gone).len(), 0nat, 0nat,
{
    lemma_grows(i, i, i);
    if p.dom().contains(g) && !gone.contains(g) {
        lemma_fewer_pending(p.dom(), gone, gone.insert(g), g);
        lemma_safe_name_fixed(g);
        lemma_group_step(i, g);
        lemma_settle_under(i.add_group(g), p, gone.insert(g), g, p[g].parents);
        lemma_adds(i, i.add_group(g), settle(i, p, gone, g).0);
    }
}

pub(crate) proof fn lemma_settle_under(
    i: InvView,
    p: PendingGroups,
    gone: Set<Name>,
    g: Name,
    ps: Seq<Name>,
)
    requires
        i.wf(),
        pending_wf(p),
        i.groups.dom().contains(g),
        forall|k: int| 0 <= k < ps.len() ==> is_safe(#[trigger] ps[k]),
    ensures
        adds(i, settle_under(i, p, gone, g, ps).0),
    decreases p.dom().difference(gone).len(), 1nat, ps.len(),
{
    lemma_grows(i, i, i);
    if ps.len() > 0 {
        let q = ps[0];
        assert(is_safe(q));
        lemma_safe_name_fixed(q);
        let a = i.add_group(q);
        lemma_group_step(i, q);
        let linked = a.add_child(q, g);
        lemma_child_step(a, q, g);
        lemma_adds(i, a, linked);
        let rest = ps.drop_first();
        assert forall|k: int| 0 <= k < rest.len() implies is_safe(#[trigger] rest[k]) by {
            assert(is_safe(ps[k + 1]));
        }
        if p.dom().contains(q) && !gone.contains(q) && p[q].state == State::Children {
            let (j, s) = settle(linked, p, gone, q);
            lemma_settle(linked, p, gone, q);
            lemma_adds(i, linked, j);
            lemma_no_more_pending(p.dom(), gone, s);
            lemma_settle_under(j, p, gone.union(s), g, rest);
            lemma_adds(i, j, settle_under(i, p, gone, g, ps).0);
        } else {
            lemma_settle_under(linked, p, gone, g, rest);
            lemma_adds(i, linked, settle_under(i, p, gone, g, ps).0);
        }
    }
}

pub(crate) proof fn lemma_enter_section(st: IniState, g: Name, state: State)
    requires
        st.wf(),
        is_safe(g),
    ensures
        adds(st.inv, enter_section(st, g, state).inv),
        enter_section(st, g, state).wf(),
{
    let inv = st.inv.add_group(g);
    lemma_safe_name_fixed(g);
    lemma_group_step(st.inv, g);
    let known = st.inv.groups.dom().contains(g);
    let pending = if !known && state == State::Vars && !st.pending.dom().contains(g) {
        st.pending.insert(g, PendingView { state: State::Vars, parents: Seq::empty() })
    } else {
        st.pending
    };
    assert(pending_wf(pending)) by {
        assert forall|q: Name, k: int|
            pending.dom().contains(q) && 0 <= k < pending[q].parents.len() implies is_safe(
            #[trigger] pending[q].parents[k],
        ) by {
            assert(st.pending.dom().contains(q));
            assert(pending[q] == st.pending[q]);
            assert(is_safe(st.pending[q].parents[k]));
        }
    }
    let end = enter_section(st, g, state);
    if state != State::Vars && pending.dom().contains(g) && pending[g].state == State::Children {
        let (i, gone) = settle(inv, pending, Set::empty(), g);
        lemma_settle(inv, pending, Set::empty(), g);
        lemma_adds(st.inv, inv, i);
        assert(end.inv == i);
        assert(end.pending =~= left(pending, gone));
    }
    assert(end.pending.dom().subset_of(pending.dom()));
    assert(pending_wf(end.pending)) by {
        vstd::set_lib::lemma_len_subset(end.pending.dom(), pending.dom());
        assert forall|q: Name, k: int|
            end.pending.dom().contains(q) && 0 <= k < end.pending[q].parents.len() implies is_safe(
            #[trigger] end.pending[q].parents[k],
        ) by {
            assert(pending.dom().contains(q));
            assert(end.pending[q] == pending[q]);
            assert(is_safe(pending[q].parents[k]));
        }
    }
}

pub(crate) proof fn lemma_set_host_vars(i: InvView, h: Name, vars: VarsView)
    requires
        i.wf(),
        i.hosts.dom().contains(h),
    ensures
        adds(i, set_host_vars(i, h, vars)),
    decreases vars.len(),
{
    lemma_grows(i, i, i);
    if vars.len() > 0 {
        let j = set_host_vars(i, h, vars.drop_last());
        lemma_set_host_vars(i, h, vars.drop_last());
        lemma_host_var_step(j, h, vars.last().0, vars.last().1);
        lemma_adds(i, j, set_host_vars(i, h, vars));
    }
}

pub(crate) proof fn lemma_define_hosts(
    i: InvView,
    g: Name,
    hs: Seq<Name>,
    port: Option<u32>,
    vars: VarsView,
)
    requires
        i.wf(),
        i.groups.dom().contains(g),
    ensures
        adds(i, define_hosts(i, g, hs, port, vars)),
    decreases hs.len(),
{
    lemma_grows(i, i, i);
    if hs.len() > 0 {
        let j = define_hosts(i, g, hs.drop_last(), port, vars);
        let h = hs.last();
        lemma_define_hosts(i, g, hs.drop_last(), port, vars);
        let a = j.add_host(h).add_host_to_group(h, g);
        lemma_host_step(j, h, g);
        lemma_adds(i, j, a);
        let b = match port {
            Some(p) => a.set_host_var(h, "ansible_port"@, ValueView::Int(p as int)),
            None => a,
        };
        lemma_grows(a, a, a);
        if let Some(p) = port {
            lemma_host_var_step(a, h, "ansible_port"@, ValueView::Int(p as int));
        }
        lemma_adds(i, a, b);
        lemma_set_host_vars(b, h, vars);
        lemma_adds(i, b, define_hosts(i, g, hs, port, vars));
    }
}

proof fn lemma_name_child(st: IniState, c: Name)
    requires
        st.wf(),
        is_safe(c),
    ensures
        adds(st.inv, name_child(st, c).inv),
        name_child(st, c).wf(),
{
    lemma_grows(st.inv, st.inv, st.inv);
    if st.inv.groups.dom().contains(c) {
        lemma_child_step(st.inv, st.group, c);
    } else {
        let end = name_child(st, c);
        assert forall|q: Name, k: int|
            end.pending.dom().contains(q) && 0 <= k < end.pending[q].parents.len() implies is_safe(
            #[trigger] end.pending[q].parents[k],
        ) by {
            if st.pending.dom().contains(q) && k < st.pending[q].parents.len() {
                assert(is_safe(st.pending[q].parents[k]));
            }
        }
    }
}

pub(crate) proof fn lemma_ini_line(st: IniState, line: Seq<char>, path: Seq<char>)
    requires
        st.wf(),
    ensures
        adds(st.inv, ini_line(st, line, path).0.inv),
        ini_line(st, line, path).0.wf(),
{
    lemma_grows(st.inv, st.inv, st.inv);
    if line.len() > 0 && line[0] != '#' && line[0] != ';' {
        match section(line) {
            Some((g, tag)) => if let Some(state) = section_state(tag) {
                lemma_safe_name_is_safe(g);
                lemma_enter_section(st, safe_name(g), state);
            },
            None => if !(line[0] == '[' && line.last() == ']') {
                match st.state {
                    State::Hosts => if let Ok((hs, port, vars)) = host_definition(line, path) {
                        lemma_define_hosts(st.inv, st.group, hs, port, vars);
                    },
                    State::Vars => if let Ok((k, v)) = variable_definition(line, path) {
                        lemma_group_var_step(st.inv, st.group, k, v);
                    },
                    State::Children => {
                        lemma_safe_name_is_safe(uncommented(line).take(word_end(uncommented(line))));
                        lemma_name_child(st, child_name(line));
                    },
                }
            },
        }
    }
}

pub(crate) proof fn lemma_ini_lines(st: IniState, lines: Seq<Seq<char>>, path: Seq<char>)
    requires
        st.wf(),
    ensures
        adds(st.inv, ini_lines(st, lines, path).0.inv),
        ini_lines(st, lines, path).0.wf(),
    decreases lines.len(),
{
    lemma_grows(st.inv, st.inv, st.inv);
    if lines.len() > 0 {
        let (now, e) = ini_lines(st, lines.drop_last(), path);
        lemma_ini_lines(st, lines.drop_last(), path);
        if e is None {
            lemma_ini_line(now, trim(lines.last()), path);
            lemma_adds(st.inv, now.inv, ini_lines(st, lines, path).0.inv);
        }
    }
}

/// Reading an INI text takes nothing away from an inventory.
pub proof fn law_ini_adds(i: InvView, text: Seq<char>, path: Seq<char>)
    requires
        i.wf(),
    ensures
        grows(i, ini_read(i, text, path).0),
{
    lemma_special_names();
    lemma_safe_name_fixed(UNGROUPED@);
    lemma_ini_lines(ini_start(i), split(text, '\n'), path);
}

// ---------------------------------------------------------------------------------------
// Constructed inventories
// ---------------------------------------------------------------------------------------

/// Every group keeps its own variables and its priority.
pub open spec fn keeps_group_vars(i: InvView, j: InvView) -> bool {
    forall|g: Name| #[trigger]
        i.groups.dom().contains(g) ==> j.groups[g].vars == i.groups[g].vars && j.groups[g].priority
            == i.groups[g].priority
}

/// A step that adds no host and sets no variable of a group.
pub open spec fn joins(i: InvView, j: InvView) -> bool {
    adds(i, j) && j.host_order == i.host_order && j.hosts.dom() == i.hosts.dom()
        && keeps_group_vars(i, j)
}

pub(crate) proof fn lemma_joins(i: InvView, j: InvView, k: InvView)
    requires
        joins(i, j),
        joins(j, k),
    ensures
        joins(i, k),
{
    lemma_grows(i, j, k);
    assert forall|g: Name| #[trigger] i.groups.dom().contains(g) implies k.groups[g].vars
        == i.groups[g].vars && k.groups[g].priority == i.groups[g].priority by {
        assert(j.groups.dom().contains(g));
    }
}

/// Linking groups sets no variable.
proof fn lemma_child_keeps_vars(i: InvView, p: Name, c: Name)
    requires
        i.wf(),
        i.groups.dom().contains(p),
        i.groups.dom().contains(c),
    ensures
        keeps_group_vars(i, i.add_child(p, c)),
{
    if p != c {
        lemma_link_wf(i, p, c);
        lemma_deepen(i.link(p, c), p, c);
        assert forall|g: Name| #[trigger] i.groups.dom().contains(g) implies i.add_child(
            p,
            c,
        ).groups[g].vars == i.groups[g].vars && i.add_child(p, c).groups[g].priority
            == i.groups[g].priority by {
            assert(i.link(p, c).groups.dom().contains(g));
        }
    }
}

pub(crate) proof fn lemma_join_group(i: InvView, h: Name, raw: Name)
    requires
        i.wf(),
        i.hosts.dom().contains(h),
    ensures
        joins(i, i.add_group(raw).add_host_to_group(h, safe_name(raw))),
{
    let a = i.add_group(raw);
    let b = a.add_host_to_group(h, safe_name(raw));
    lemma_group_step(i, raw);
    lemma_host_step(a, h, safe_name(raw));
    assert(a.add_host(h) == a);
    lemma_adds(i, a, b);
    assert(b.hosts.dom() =~= i.hosts.dom());
}

pub(crate) proof fn lemma_assign(i: InvView, h: Name, vs: VarsView)
    requires
        i.wf(),
        i.hosts.dom().contains(h),
    ensures
        joins(i, assign(i, h, vs)),
    decreases vs.len(),
{
    lemma_grows(i, i, i);
    if vs.len() > 0 {
        let j = assign(i, h, vs.drop_last());
        lemma_assign(i, h, vs.drop_last());
        lemma_host_var_step(j, h, vs.last().0, vs.last().1);
        assert(assign(i, h, vs).hosts.dom() =~= j.hosts.dom());
        lemma_joins(i, j, assign(i, h, vs));
    }
}

pub(crate) proof fn lemma_conditional_groups(
    i: InvView,
    h: Name,
    es: Exprs,
    vars: VarsView,
    fl: Floats,
    path: Seq<char>,
)
    requires
        i.wf(),
        i.hosts.dom().contains(h),
    ensures
        joins(i, conditional_groups(i, h, es, vars, fl, path).0),
    decreases es.len(),
{
    lemma_grows(i, i, i);
    if es.len() > 0 {
        let (j, stop) = conditional_groups(i, h, es.drop_last(), vars, fl, path);
        lemma_conditional_groups(i, h, es.drop_last(), vars, fl, path);
        lemma_join_group(j, h, es.last().0);
        lemma_joins(i, j, j.add_group(es.last().0).add_host_to_group(h, safe_name(es.last().0)));
    }
}

pub(crate) proof fn lemma_join_keyed(i: InvView, h: Name, g: KeyedView, bare: Name, leading: bool)
    requires
        i.wf(),
        i.hosts.dom().contains(h),
    ensures
        joins(i, join_keyed(i, h, g, bare, leading)),
{
    let name = keyed_name(g.prefix, g.separator, bare, leading);
    lemma_safe_name_fixed(
        g.prefix + (if g.prefix.len() == 0 && !leading {
            Seq::empty()
        } else {
            g.separator
        }) + bare,
    );
    let j = i.add_group(name).add_host_to_group(h, name);
    lemma_join_group(i, h, name);
    lemma_group_step(i, name);
    assert(j.groups.dom().contains(name));
    if let Some(p) = g.parent_group {
        let a = j.add_group(p);
        lemma_group_step(j, p);
        lemma_child_step(a, safe_name(p), name);
        lemma_child_keeps_vars(a, safe_name(p), name);
        lemma_adds(j, a, a.add_child(safe_name(p), name));
        assert forall|q: Name| #[trigger] j.groups.dom().contains(q) implies join_keyed(
            i,
            h,
            g,
            bare,
            leading,
        ).groups[q].vars == j.groups[q].vars && join_keyed(
            i,
            h,
            g,
            bare,
            leading,
        ).groups[q].priority == j.groups[q].priority by {
            assert(a.groups.dom().contains(q));
        }
        lemma_joins(i, j, join_keyed(i, h, g, bare, leading));
    }
}

pub(crate) proof fn lemma_join_all_keyed(
    i: InvView,
    h: Name,
    g: KeyedView,
    bares: Seq<Name>,
    leading: bool,
)
    requires
        i.wf(),
        i.hosts.dom().contains(h),
    ensures
        joins(i, join_all_keyed(i, h, g, bares, leading)),
    decreases bares.len(),
{
    lemma_grows(i, i, i);
    if bares.len() > 0 {
        let j = join_all_keyed(i, h, g, bares.drop_last(), leading);
        lemma_join_all_keyed(i, h, g, bares.drop_last(), leading);
        lemma_join_keyed(j, h, g, bares.last(), leading);
        lemma_joins(i, j, join_all_keyed(i, h, g, bares, leading));
    }
}

pub(crate) proof fn lemma_all_keyed_groups(
    i: InvView,
    h: Name,
    gs: Seq<KeyedView>,
    c: ConfigView,
    vars: VarsView,
    fl: Floats,
    path: Seq<char>,
)
    requires
        i.wf(),
        i.hosts.dom().contains(h),
    ensures
        joins(i, all_keyed_groups(i, h, gs, c, vars, fl, path).0),
    decreases gs.len(),
{
    lemma_grows(i, i, i);
    if gs.len() > 0 {
        let (j, stop) = all_keyed_groups(i, h, gs.drop_last(), c, vars, fl, path);
        lemma_all_keyed_groups(i, h, gs.drop_last(), c, vars, fl, path);
        lemma_grows(j, j, j);
        let g = gs.last();
        if stop is None {
            if let Ok(Some(v)) = lenient(g.key, evaluated(g.key, vars, fl)) {
                if let Ok(bares) = key_names(v, g, c.trailing_separator) {
                    lemma_join_all_keyed(j, h, g, bares, c.leading_separator);
                }
            }
            lemma_joins(i, j, all_keyed_groups(i, h, gs, c, vars, fl, path).0);
        }
    }
}

pub(crate) proof fn lemma_construct_host(
    i: InvView,
    h: Name,
    c: ConfigView,
    fl: Floats,
    path: Seq<char>,
)
    requires
        i.wf(),
        i.hosts.dom().contains(h),
    ensures
        joins(i, construct_host(i, h, c, fl, path).0),
{
    lemma_grows(i, i, i);
    if let Ok(vs) = compositions(c.compose, resolved_inline(i, h), c.strict, fl, path) {
        let j = assign(i, h, vs);
        lemma_assign(i, h, vs);
        let vars = resolved_inline(j, h);
        let (k, stop) = conditional_groups(j, h, c.groups, vars, fl, path);
        lemma_conditional_groups(j, h, c.groups, vars, fl, path);
        lemma_joins(i, j, k);
        if stop is None {
            lemma_all_keyed_groups(k, h, c.keyed_groups, c, vars, fl, path);
            lemma_joins(i, k, construct_host(i, h, c, fl, path).0);
        }
    }
}

pub(crate) proof fn lemma_construct_hosts(
    i: InvView,
    hs: Seq<Name>,
    c: ConfigView,
    fl: Floats,
    path: Seq<char>,
)
    requires
        i.wf(),
        all_hosts(i, hs),
    ensures
        joins(i, construct_hosts(i, hs, c, fl, path).0),
    decreases hs.len(),
{
    lemma_grows(i, i, i);
    if hs.len() > 0 {
        let (j, stop) = construct_hosts(i, hs.drop_last(), c, fl, path);
        assert forall|k: Name| #[trigger] hs.drop_last().contains(k) implies i.hosts.dom().contains(
            k,
        ) by {
            let n = choose|n: int| 0 <= n < hs.len() - 1 && hs.drop_last()[n] == k;
            assert(hs.contains(hs[n]));
        }
        lemma_construct_hosts(i, hs.drop_last(), c, fl, path);
        if stop is None {
            assert(hs.contains(hs[hs.len() - 1]));
            lemma_construct_host(j, hs.last(), c, fl, path);
            lemma_joins(i, j, construct_hosts(i, hs, c, fl, path).0);
        }
    }
}

/// A construction takes nothing away from an inventory, and adds no host to it: it only
/// sets variables of hosts, makes groups and puts hosts into them. No group's own variables
/// change, and a configuration that cannot be read changes nothing at all.
pub proof fn law_construction_adds_no_host(i: InvView, v: ValueView, fl: Floats, path: Seq<char>)
    requires
        i.wf(),
    ensures
        grows(i, constructed(i, v, fl, path).0),
        constructed(i, v, fl, path).0.host_order == i.host_order,
        constructed(i, v, fl, path).0.hosts.dom() == i.hosts.dom(),
        keeps_group_vars(i, constructed(i, v, fl, path).0),
        config_of(v) is Err ==> constructed(i, v, fl, path).0 == i && constructed(
            i,
            v,
            fl,
            path,
        ).1 matches Some(Halt::Error(ErrorView::Parse { .. })),
{
    lemma_grows(i, i, i);
    if let Ok(c) = config_of(v) {
        lemma_construct_hosts(i, i.host_order, c, fl, path);
    }
}

/// A construction over an inventory without hosts changes nothing.
pub proof fn law_construction_needs_hosts(i: InvView, v: ValueView, fl: Floats, path: Seq<char>)
    requires
        i.host_order.len() == 0,
    ensures
        constructed(i, v, fl, path).0 == i,
        config_of(v) is Ok ==> constructed(i, v, fl, path).1 is None,
{
}

// ---------------------------------------------------------------------------------------
// The end of reading
// ---------------------------------------------------------------------------------------

proof fn lemma_adopt(i: InvView, gs: Seq<Name>)
    requires
        i.wf(),
        forall|k: int| 0 <= k < gs.len() ==> i.groups.dom().contains(#[trigger] gs[k]),
    ensures
        adds(i, i.adopt(gs)),
    decreases gs.len(),
{
    lemma_grows(i, i, i);
    if gs.len() > 0 {
        let u = gs.drop_last();
        assert forall|k: int| 0 <= k < u.len() implies i.groups.dom().contains(#[trigger] u[k]) by {
            assert(i.groups.dom().contains(gs[k]));
        }
        lemma_adopt(i, u);
        assert(i.groups.dom().contains(gs[gs.len() - 1]));
        lemma_child_step(i.adopt(u), ALL@, gs.last());
        lemma_adds(i, i.adopt(u), i.adopt(gs));
    }
}

proof fn lemma_leads_with_all(a: Seq<Name>, ns: Seq<Name>)
    ensures
        leads(a, with_names(a, ns)),
    decreases ns.len(),
{
    lemma_leads(a, a, a);
    if ns.len() > 0 {
        let b = with_names(a, ns.drop_last());
        lemma_leads_with_all(a, ns.drop_last());
        lemma_leads_with(b, ns.last());
        lemma_leads(a, b, with_names(a, ns));
    }
}

proof fn lemma_adopted(i: InvView, gs: Seq<Name>)
    requires
        i.wf(),
        forall|k: int|
            0 <= k < gs.len() ==> i.groups.dom().contains(#[trigger] gs[k]) && gs[k] != ALL@,
    ensures
        ({
            let j = i.adopt(gs);
            &&& j.wf()
            &&& j.groups.dom() == i.groups.dom()
            &&& j.groups[ALL@].children == with_names(i.groups[ALL@].children, gs)
            &&& j.hosts == i.hosts
            &&& j.host_order == i.host_order
            &&& j.group_order == i.group_order
            &&& forall|g: Name| #[trigger]
                i.groups.dom().contains(g) ==> j.groups[g].vars == i.groups[g].vars
                    && j.groups[g].file_vars == i.groups[g].file_vars && j.groups[g].priority
                    == i.groups[g].priority && j.groups[g].hosts == i.groups[g].hosts && (g != ALL@
                    ==> j.groups[g].children == i.groups[g].children)
        }),
    decreases gs.len(),
{
    if gs.len() > 0 {
        let u = gs.drop_last();
        assert forall|k: int| 0 <= k < u.len() implies i.groups.dom().contains(#[trigger] u[k])
            && u[k] != ALL@ by {
            assert(gs[k] == u[k]);
        }
        lemma_adopted(i, u);
        let j = i.adopt(u);
        let c = gs.last();
        assert(gs[gs.len() - 1] == c);
        lemma_add_child_wf(j, ALL@, c);
        lemma_link_wf(j, ALL@, c);
        lemma_deepen(j.link(ALL@, c), ALL@, c);
        let k = i.adopt(gs);
        assert forall|g: Name| #[trigger] i.groups.dom().contains(g) implies k.groups[g].vars
            == i.groups[g].vars && k.groups[g].file_vars == i.groups[g].file_vars
            && k.groups[g].priority == i.groups[g].priority && k.groups[g].hosts
            == i.groups[g].hosts && (g != ALL@ ==> k.groups[g].children == i.groups[g].children) by {
            assert(j.link(ALL@, c).groups.dom().contains(g));
        }
        assert(j.link(ALL@, c).groups.dom().contains(ALL@));
    }
}

/// Tying loose groups to `all` appends them to its children, in the order of the groups, and
/// leaves hosts, variables and all other children alone.
pub proof fn law_loose_groups_in_order(i: InvView)
    requires
        i.wf(),
    ensures
        ({
            let j = i.adopt(i.orphan_groups());
            &&& j.groups[ALL@].children == i.groups[ALL@].children + i.orphan_groups()
            &&& j.hosts == i.hosts
            &&& j.host_order == i.host_order
            &&& j.group_order == i.group_order
            &&& forall|g: Name| #[trigger]
                i.groups.dom().contains(g) ==> j.groups[g].vars == i.groups[g].vars
                    && j.groups[g].file_vars == i.groups[g].file_vars && j.groups[g].priority
                    == i.groups[g].priority && j.groups[g].hosts == i.groups[g].hosts && (g != ALL@
                    ==> j.groups[g].children == i.groups[g].children)
        }),
{
    let gs = i.orphan_groups();
    let pred = |g: Name| g != ALL@ && i.groups[g].parents.len() == 0;
    lemma_filter_names(i.group_order, pred);
    assert forall|k: int| 0 <= k < gs.len() implies i.groups.dom().contains(#[trigger] gs[k])
        && gs[k] != ALL@ by {
        assert(gs.contains(gs[k]));
    }
    lemma_adopted(i, gs);
    let all = i.groups[ALL@].children;
    assert(i.group_wf(ALL@));
    assert forall|k: int| 0 <= k < gs.len() implies !all.contains(#[trigger] gs[k]) by {
        assert(gs.contains(gs[k]));
        if all.contains(gs[k]) {
            assert(i.groups[gs[k]].parents.contains(ALL@));
        }
    }
    lemma_all_appended(all, gs);
}

proof fn lemma_all_appended(s: Seq<Name>, ns: Seq<Name>)
    requires
        ns.no_duplicates(),
        forall|k: int| 0 <= k < ns.len() ==> !s.contains(#[trigger] ns[k]),
    ensures
        with_names(s, ns) == s + ns,
    decreases ns.len(),
{
    if ns.len() == 0 {
        assert(s + ns =~= s);
    } else {
        let u = ns.drop_last();
        let n = ns.len() - 1;
        assert forall|a: int, b: int| 0 <= a < u.len() && 0 <= b < u.len() && a != b implies u[a]
            != u[b] by {
            assert(ns[a] != ns[b]);
        }
        assert forall|k: int| 0 <= k < u.len() implies !s.contains(#[trigger] u[k]) by {
            assert(!s.contains(ns[k]));
        }
        lemma_all_appended(s, u);
        assert(!(s + u).contains(ns[n])) by {
            if (s + u).contains(ns[n]) {
                let k = choose|k: int| 0 <= k < (s + u).len() && (s + u)[k] == ns[n];
                if k < s.len() {
                    assert(s.contains(s[k]));
                    assert(!s.contains(ns[n]));
                } else {
                    assert(u[k - s.len()] == ns[k - s.len()]);
                    assert(ns[k - s.len()] != ns[n]);
                }
            }
        }
        assert((s + u).push(ns.last()) =~= s + ns);
    }
}

/// Tying loose ends takes nothing away from an inventory.
pub proof fn law_reconciling_adds(i: InvView)
    requires
        i.wf(),
    ensures
        grows(i, reconciled(i)),
{
    let gs = i.orphan_groups();
    let pred = |g: Name| g != ALL@ && i.groups[g].parents.len() == 0;
    lemma_filter_names(i.group_order, pred);
    assert forall|k: int| 0 <= k < gs.len() implies i.groups.dom().contains(#[trigger] gs[k]) by {
        assert(gs.contains(gs[k]));
    }
    lemma_adopt(i, gs);
    let j = i.adopt(gs);
    let v = j.groups[UNGROUPED@];
    lemma_grows(j, j, j);
    assert(group_grows(v, v));
    lemma_leads_with_all(v.hosts, j.orphan_hosts());
    lemma_with_group(j, UNGROUPED@, reconciled(i).groups[UNGROUPED@]);
    lemma_grows(i, j, reconciled(i));
}

/// Once all sources are read, every group but `all` has a parent: the ones it had, or `all`
/// where it had none; and `ungrouped` has the hosts it had and those that are in no group.
pub proof fn law_nothing_is_left_loose(i: InvView, g: Name, h: Name)
    requires
        i.wf(),
        i.groups.dom().contains(g),
        g != ALL@,
    ensures
        reconciled(i).groups[g].parents == (if i.groups[g].parents.len() == 0 {
            seq![ALL@]
        } else {
            i.groups[g].parents
        }),
        reconciled(i).groups[UNGROUPED@].hosts.contains(h) <==> i.groups[UNGROUPED@].hosts.contains(
            h,
        ) || (i.hosts.dom().contains(h) && i.hosts[h].groups.len() == 0),
        g != UNGROUPED@ ==> reconciled(i).groups[g].hosts == i.groups[g].hosts,
        reconciled(i).hosts == i.hosts,
{
    let gs = i.orphan_groups();
    let pred = |g: Name| g != ALL@ && i.groups[g].parents.len() == 0;
    lemma_filter_names(i.group_order, pred);
    assert forall|k: int| 0 <= k < gs.len() implies i.groups.dom().contains(#[trigger] gs[k])
        && gs[k] != ALL@ by {
        assert(gs.contains(gs[k]));
    }
    lemma_adopted(i, gs);
    law_reconcile_all_children(i);
    let j = i.adopt(gs);
    law_reconcile_ungrouped(j);
    assert(j.groups.dom().contains(UNGROUPED@));
    assert(i.groups.dom().contains(UNGROUPED@));
}

} // verus!
