//! The output trees: the flat list with `_meta.hostvars`, the variables of one host, the
//! nested tree, and the flat table.

use vstd::prelude::*;
use vstd::set_lib::lemma_len_subset;
use crate::assoc::{overlay, put, Name};
use crate::graph::{lemma_walk_is_reach, reaches, walk};
use crate::model::{lemma_filter_names, lemma_wf_finite, ALL, InvView, InventoryData, PRIORITY_VAR, UNGROUPED};
use crate::nameset::NameSet;
use crate::text::{lemma_names_push, names, same};
use crate::value::{int_value, lemma_list_view, values, Value, ValueView, VarMap, VarsView};
use crate::vars::{combine, public_vars, remove_internal, resolve_host_vars, resolved};

verus! {

/// Which groups the trees leave out.
#[derive(Debug, Clone, Copy, PartialEq, Eq, Structural)]
pub enum GroupPruning {
    /// Only groups with a visible host or, under export, with variables stay, and the
    /// ancestors of those.
    GraphAware,
    /// Every group stays in its parents' lists, even one that has nothing to show.
    AnsibleCompatible,
}

/// The names of the hosts that the output shows.
pub type Available<'a> = &'a NameSet;

/// What shapes a tree: the visible hosts, export, and the groups that stay (`None`: all).
pub struct ScopeView {
    pub available: Set<Name>,
    pub export: bool,
    pub retained: Option<Set<Name>>,
}

// ---------------------------------------------------------------------------------------
// Variables
// ---------------------------------------------------------------------------------------

/// A host's own variables and those of its files, without what groups give it.
pub open spec fn own_vars(i: InvView, h: Name) -> VarsView {
    if i.hosts.dom().contains(h) {
        overlay(overlay(Seq::empty(), i.hosts[h].vars), i.hosts[h].file_vars)
    } else {
        Seq::empty()
    }
}

/// A host's variables in the output: its own under export, the resolved ones otherwise.
pub open spec fn shown_vars(i: InvView, h: Name, export: bool) -> VarsView {
    public_vars(
        if export {
            own_vars(i, h)
        } else {
            resolved(i, h)
        },
    )
}

/// A group's variables under export: its own, those of its files, and its priority where
/// it is not 1.
pub open spec fn export_vars(i: InvView, g: Name) -> VarsView {
    if i.groups.dom().contains(g) {
        let v = i.groups[g];
        let own = overlay(v.vars, v.file_vars);
        public_vars(
            if v.priority != 1 {
                put(own, PRIORITY_VAR@, ValueView::Int(v.priority))
            } else {
                own
            },
        )
    } else {
        Seq::empty()
    }
}

// ---------------------------------------------------------------------------------------
// Which groups stay
// ---------------------------------------------------------------------------------------

/// A group has something to show of its own: a visible host, or variables under export.
pub open spec fn contributes(i: InvView, available: Set<Name>, export: bool, g: Name) -> bool {
    ||| exists|h: Name| #[trigger] i.groups[g].hosts.contains(h) && available.contains(h)
    ||| export && export_vars(i, g).len() > 0
}

/// A group stays: it contributes, or a group below it does.
pub open spec fn stays(i: InvView, available: Set<Name>, export: bool, g: Name) -> bool {
    exists|s: Name| #[trigger]
        reaches(i.parents(), s, g) && i.groups.dom().contains(s) && contributes(
            i,
            available,
            export,
            s,
        )
}

/// The groups that a pruning leaves.
pub open spec fn retained_set(
    i: InvView,
    available: Set<Name>,
    export: bool,
    pruning: GroupPruning,
) -> Option<Set<Name>> {
    match pruning {
        GroupPruning::GraphAware => Some(Set::new(|g: Name| stays(i, available, export, g))),
        GroupPruning::AnsibleCompatible => None,
    }
}

/// What shapes the trees for given arguments.
pub open spec fn scope(
    i: InvView,
    available: Set<Name>,
    export: bool,
    pruning: GroupPruning,
) -> ScopeView {
    ScopeView { available, export, retained: retained_set(i, available, export, pruning) }
}

impl ScopeView {
    /// The group stays.
    pub open spec fn keeps(self, g: Name) -> bool {
        match self.retained {
            Some(s) => s.contains(g),
            None => true,
        }
    }

    /// The children of a group that stay.
    pub open spec fn kept_children(self, i: InvView, g: Name) -> Seq<Name> {
        i.groups[g].children.filter(|c: Name| self.keeps(c))
    }

    /// The visible hosts of a group; `all` shows none of its own.
    pub open spec fn shown_hosts(self, i: InvView, g: Name) -> Seq<Name> {
        if g == ALL@ {
            Seq::empty()
        } else {
            i.groups[g].hosts.filter(|h: Name| self.available.contains(h))
        }
    }

    /// The variables a group shows: under export alone.
    pub open spec fn group_vars(self, i: InvView, g: Name) -> VarsView {
        if self.export {
            export_vars(i, g)
        } else {
            Seq::empty()
        }
    }
}

/// Names as a list of texts.
pub open spec fn texts(ns: Seq<Name>) -> ValueView {
    ValueView::List(Seq::new(ns.len(), |k: int| ValueView::Text(ns[k])))
}

/// An entry with a list under a key, unless the list is empty.
pub open spec fn put_list(e: VarsView, k: Name, ns: Seq<Name>) -> VarsView {
    if ns.len() > 0 {
        put(e, k, texts(ns))
    } else {
        e
    }
}

/// An entry with a map under a key, unless the map is empty.
pub open spec fn put_dict(e: VarsView, k: Name, m: VarsView) -> VarsView {
    if m.len() > 0 {
        put(e, k, ValueView::Dict(m))
    } else {
        e
    }
}

// ---------------------------------------------------------------------------------------
// The flat list
// ---------------------------------------------------------------------------------------

/// What the list shows of a group.
pub open spec fn list_entry(i: InvView, c: ScopeView, g: Name) -> VarsView {
    put_dict(
        put_list(
            put_list(Seq::empty(), "hosts"@, c.shown_hosts(i, g)),
            "children"@,
            c.kept_children(i, g),
        ),
        "vars"@,
        c.group_vars(i, g),
    )
}

/// The list after a group and what is below it were added to `out`: the children first,
/// each group below entered once. `seen` are the groups entered before.
pub open spec fn list_group(i: InvView, c: ScopeView, g: Name, seen: Set<Name>, out: VarsView) -> (
    Set<Name>,
    VarsView,
)
    decreases i.groups.dom().difference(seen).len(), 1nat, 0nat,
    when i.groups.dom().finite()
{
    if !i.groups.dom().contains(g) {
        (seen, out)
    } else {
        let (s, o) = list_children(i, c, c.kept_children(i, g), seen, out);
        (s, put_dict(o, g, list_entry(i, c, g)))
    }
}

/// The list after some children were added to `out`, in order.
pub open spec fn list_children(
    i: InvView,
    c: ScopeView,
    cs: Seq<Name>,
    seen: Set<Name>,
    out: VarsView,
) -> (Set<Name>, VarsView)
    decreases i.groups.dom().difference(seen).len(), 0nat, cs.len(),
    when i.groups.dom().finite()
{
    if cs.len() == 0 {
        (seen, out)
    } else if seen.contains(cs[0]) || !i.groups.dom().contains(cs[0]) {
        list_children(i, c, cs.drop_first(), seen, out)
    } else {
        let now = seen.insert(cs[0]);
        proof {
            lemma_enter(i.groups.dom(), seen, now, cs[0]);
        }
        let (s, o) = list_group(i, c, cs[0], now, out);
        proof {
            lemma_enter_more(i.groups.dom(), seen, s, cs[0]);
        }
        list_children(i, c, cs.drop_first(), now.union(s), o)
    }
}

/// Entering a group leaves fewer groups to enter.
pub proof fn lemma_enter(d: Set<Name>, seen: Set<Name>, now: Set<Name>, g: Name)
    requires
        d.finite(),
        d.contains(g),
        !seen.contains(g),
        now.contains(g),
        seen.subset_of(now),
    ensures
        d.difference(now).len() < d.difference(seen).len(),
{
    let a = d.difference(seen);
    assert(d.difference(now).subset_of(a.remove(g)));
    lemma_len_subset(d.difference(now), a.remove(g));
}

/// Entering a group, and any others, leaves fewer groups to enter.
pub proof fn lemma_enter_more(d: Set<Name>, seen: Set<Name>, more: Set<Name>, g: Name)
    requires
        d.finite(),
        d.contains(g),
        !seen.contains(g),
    ensures
        d.difference(seen.insert(g).union(more)).len() < d.difference(seen).len(),
{
    let now = seen.insert(g).union(more);
    assert(now.contains(g));
    assert(seen.subset_of(now));
    lemma_enter(d, seen, now, g);
}

/// The `_meta.hostvars` map of some hosts: the visible ones that have variables.
pub open spec fn meta_hostvars(i: InvView, c: ScopeView, hs: Seq<Name>) -> VarsView
    decreases hs.len(),
{
    if hs.len() == 0 {
        Seq::empty()
    } else {
        let m = meta_hostvars(i, c, hs.drop_last());
        if c.available.contains(hs.last()) {
            put_dict(m, hs.last(), shown_vars(i, hs.last(), c.export))
        } else {
            m
        }
    }
}

/// The flat list: the groups, then `_meta` with its `hostvars`, which stands even where it
/// is empty.
pub open spec fn list_tree(i: InvView, c: ScopeView) -> VarsView {
    put(
        list_group(i, c, ALL@, Set::empty(), Seq::empty()).1,
        "_meta"@,
        ValueView::Dict(
            seq![("hostvars"@, ValueView::Dict(meta_hostvars(i, c, i.host_order)))],
        ),
    )
}

// ---------------------------------------------------------------------------------------
// The nested tree
// ---------------------------------------------------------------------------------------

/// The hosts map of a group, and the hosts shown so far: a host's variables stand where it
/// is shown first, and nowhere else.
pub open spec fn hosts_map(i: InvView, c: ScopeView, hs: Seq<Name>, shown: Set<Name>) -> (
    VarsView,
    Set<Name>,
)
    decreases hs.len(),
{
    if hs.len() == 0 {
        (Seq::empty(), shown)
    } else {
        let (m, s) = hosts_map(i, c, hs.drop_last(), shown);
        let vars = if s.contains(hs.last()) {
            Seq::empty()
        } else {
            shown_vars(i, hs.last(), c.export)
        };
        (put(m, hs.last(), ValueView::Dict(vars)), s.insert(hs.last()))
    }
}

/// The children that the nested tree shows of a group; `all` is never nested.
pub open spec fn nested_children(i: InvView, c: ScopeView, g: Name) -> Seq<Name> {
    i.groups[g].children.filter(|s: Name| s != ALL@ && c.keeps(s))
}

/// The nested tree of a group, under its name (empty where there is nothing to show), and
/// the hosts and groups shown so far.
pub open spec fn nested_group(
    i: InvView,
    c: ScopeView,
    g: Name,
    shown: Set<Name>,
    seen: Set<Name>,
) -> (VarsView, Set<Name>, Set<Name>)
    decreases i.groups.dom().difference(seen).len(), 1nat, 0nat,
    when i.groups.dom().finite()
{
    if !i.groups.dom().contains(g) {
        (Seq::empty(), shown, seen)
    } else {
        let (children, h1, s) = nested_group_children(
            i,
            c,
            nested_children(i, c, g),
            Seq::empty(),
            shown,
            seen,
        );
        let (hosts, h2) = hosts_map(i, c, c.shown_hosts(i, g), h1);
        let entry = put_dict(
            put_dict(put_dict(Seq::empty(), "children"@, children), "hosts"@, hosts),
            "vars"@,
            c.group_vars(i, g),
        );
        (put_dict(Seq::empty(), g, entry), h2, s)
    }
}

/// `acc` with the nested trees of some children; a group that was shown before stands as
/// an empty map.
pub open spec fn nested_group_children(
    i: InvView,
    c: ScopeView,
    cs: Seq<Name>,
    acc: VarsView,
    shown: Set<Name>,
    seen: Set<Name>,
) -> (VarsView, Set<Name>, Set<Name>)
    decreases i.groups.dom().difference(seen).len(), 0nat, cs.len(),
    when i.groups.dom().finite()
{
    if cs.len() == 0 {
        (acc, shown, seen)
    } else if seen.contains(cs[0]) {
        nested_group_children(
            i,
            c,
            cs.drop_first(),
            put(acc, cs[0], ValueView::Dict(Seq::empty())),
            shown,
            seen,
        )
    } else if !i.groups.dom().contains(cs[0]) {
        nested_group_children(i, c, cs.drop_first(), acc, shown, seen)
    } else {
        let now = seen.insert(cs[0]);
        proof {
            lemma_enter(i.groups.dom(), seen, now, cs[0]);
        }
        let (m, h, s) = nested_group(i, c, cs[0], shown, now);
        proof {
            lemma_enter_more(i.groups.dom(), seen, s, cs[0]);
        }
        nested_group_children(i, c, cs.drop_first(), overlay(acc, m), h, now.union(s))
    }
}

/// The nested tree.
pub open spec fn nested_tree(i: InvView, c: ScopeView) -> VarsView {
    nested_group(i, c, ALL@, Set::empty(), Set::empty()).0
}

// ---------------------------------------------------------------------------------------
// The flat table
// ---------------------------------------------------------------------------------------

/// The children that the flat table follows from a group: those that stay; where nothing
/// is pruned, an `ungrouped` without hosts is still left out.
pub open spec fn table_children(i: InvView, c: ScopeView, g: Name) -> Seq<Name> {
    i.groups[g].children.filter(
        |s: Name|
            c.keeps(s) && !(c.retained is None && s == UNGROUPED@
                && i.groups[UNGROUPED@].hosts.len() == 0),
    )
}

/// What the flat table shows of a group with these children, hosts and variables.
pub open spec fn table_entry(children: Seq<Name>, hosts: VarsView, vars: VarsView) -> VarsView {
    put_dict(
        put_dict(put_list(Seq::empty(), "children"@, children), "hosts"@, hosts),
        "vars"@,
        vars,
    )
}

/// The children that the flat table lists of a group; `all` lists none.
pub open spec fn listed_children(i: InvView, c: ScopeView, g: Name) -> Seq<Name> {
    if g == ALL@ {
        Seq::empty()
    } else {
        table_children(i, c, g)
    }
}

/// The groups entered and the hosts shown so far, and the table, after a group and what is
/// below it were added: the children first, each group below entered once, so that a group
/// that is in the table keeps its entry. `seen` are the groups entered before.
pub open spec fn table_group(
    i: InvView,
    c: ScopeView,
    g: Name,
    seen: Set<Name>,
    shown: Set<Name>,
    out: VarsView,
) -> (Set<Name>, Set<Name>, VarsView)
    decreases i.groups.dom().difference(seen).len(), 1nat, 0nat,
    when i.groups.dom().finite()
{
    if !i.groups.dom().contains(g) {
        (seen, shown, out)
    } else {
        let (s, h1, o) = table_group_children(i, c, table_children(i, c, g), seen, shown, out);
        let (hosts, h2) = hosts_map(i, c, c.shown_hosts(i, g), h1);
        (s, h2, put_dict(o, g, table_entry(listed_children(i, c, g), hosts, c.group_vars(i, g))))
    }
}

/// The same after some children were added, in order.
pub open spec fn table_group_children(
    i: InvView,
    c: ScopeView,
    cs: Seq<Name>,
    seen: Set<Name>,
    shown: Set<Name>,
    out: VarsView,
) -> (Set<Name>, Set<Name>, VarsView)
    decreases i.groups.dom().difference(seen).len(), 0nat, cs.len(),
    when i.groups.dom().finite()
{
    if cs.len() == 0 {
        (seen, shown, out)
    } else if seen.contains(cs[0]) || !i.groups.dom().contains(cs[0]) {
        table_group_children(i, c, cs.drop_first(), seen, shown, out)
    } else {
        let now = seen.insert(cs[0]);
        proof {
            lemma_enter(i.groups.dom(), seen, now, cs[0]);
        }
        let (s, h, o) = table_group(i, c, cs[0], now, shown, out);
        proof {
            lemma_enter_more(i.groups.dom(), seen, s, cs[0]);
        }
        table_group_children(i, c, cs.drop_first(), now.union(s), h, o)
    }
}

/// The flat table.
pub open spec fn table_tree(i: InvView, c: ScopeView) -> VarsView {
    table_group(i, c, ALL@, set![ALL@], Set::empty(), Seq::empty()).2
}

// ---------------------------------------------------------------------------------------
// Building
// ---------------------------------------------------------------------------------------

/// What shapes a tree.
struct Scope<'a> {
    available: Available<'a>,
    export: bool,
    retained: Option<NameSet>,
}

impl<'a> View for Scope<'a> {
    type V = ScopeView;

    closed spec fn view(&self) -> ScopeView {
        ScopeView {
            available: self.available@,
            export: self.export,
            retained: match self.retained {
                Some(s) => Some(s@),
                None => None,
            },
        }
    }
}

/// A host's own variables and those of its files.
fn host_own_vars(inv: &InventoryData, host: &str) -> (r: VarMap)
    ensures
        r@ == own_vars(inv@, host@),
{
    let mut out = VarMap::new();
    match inv.host(host) {
        Some(h) => {
            combine(&mut out, &h.vars);
            combine(&mut out, &h.file_vars);
        },
        None => {},
    }
    out
}

/// A host's variables in the output.
fn host_vars_for(inv: &InventoryData, host: &str, export: bool) -> (r: VarMap)
    requires
        inv@.wf(),
    ensures
        r@ == shown_vars(inv@, host@, export),
{
    let mut hv = if export {
        host_own_vars(inv, host)
    } else {
        resolve_host_vars(inv, host)
    };
    remove_internal(&mut hv);
    hv
}

/// A group's variables under export.
fn group_export_vars(inv: &InventoryData, group: &str) -> (r: VarMap)
    ensures
        r@ == export_vars(inv@, group@),
{
    match inv.group(group) {
        Some(g) => {
            let mut res = g.vars.clone();
            combine(&mut res, &g.file_vars);
            if g.priority != 1 {
                res.insert(PRIORITY_VAR.to_owned(), int_value(g.priority));
            }
            remove_internal(&mut res);
            res
        },
        None => VarMap::new(),
    }
}

/// Whether some host of a list is visible.
fn any_available(hosts: &Vec<String>, available: Available) -> (r: bool)
    ensures
        r == exists|h: Name| #[trigger] names(hosts@).contains(h) && available@.contains(h),
{
    let mut i: usize = 0;
    while i < hosts.len()
        invariant
            i <= hosts.len(),
            forall|j: int| 0 <= j < i ==> !available@.contains(#[trigger] names(hosts@)[j]),
        decreases hosts.len() - i,
    {
        if available.contains(hosts[i].as_str()) {
            assert(names(hosts@)[i as int] == hosts@[i as int]@);
            assert(names(hosts@).contains(hosts@[i as int]@));
            return true;
        }
        i += 1;
    }
    false
}

/// The groups that stay: those that contribute, and their ancestors.
fn retained_groups(inv: &InventoryData, available: Available, export: bool) -> (r: NameSet)
    requires
        inv@.wf(),
    ensures
        r@ == Set::new(|g: Name| stays(inv@, available@, export, g)),
{
    let ghost i0 = inv@;
    let ghost pred = |g: Name| contributes(i0, available@, export, g);
    let all = inv.group_names();
    let ghost src = names(all@);
    let mut seeds: Vec<String> = Vec::new();
    let mut i: usize = 0;
    assert(names(seeds@) =~= Seq::empty());
    assert(src.take(0).filter(pred) =~= Seq::empty()) by {
        reveal(Seq::filter);
    }
    while i < all.len()
        invariant
            i <= all.len(),
            i0 == inv@,
            i0.wf(),
            src == names(all@),
            src == i0.group_order,
            pred == (|g: Name| contributes(i0, available@, export, g)),
            names(seeds@) == src.take(i as int).filter(pred),
        decreases all.len() - i,
    {
        let name = &all[i];
        proof {
            reveal(Seq::filter);
            assert(src.take(i + 1).drop_last() =~= src.take(i as int));
            assert(src[i as int] == name@);
            assert(src.contains(name@));
            assert(i0.groups.dom().contains(name@));
            lemma_names_push(seeds@, *name);
        }
        let shows = match inv.group(name.as_str()) {
            Some(g) => any_available(&g.hosts, available) || (export && !group_export_vars(
                inv,
                name.as_str(),
            ).is_empty()),
            None => false,
        };
        if shows {
            seeds.push(name.clone());
        }
        i += 1;
    }
    let ghost start = names(seeds@);
    let list = inv.with_ancestors(seeds);
    let r = NameSet::of(&list);
    proof {
        assert(src.take(i as int) =~= src);
        lemma_filter_names(src, pred);
        lemma_wf_finite(i0);
        assert(i0.parents().dom() =~= i0.groups.dom());
        lemma_walk_is_reach(i0.parents(), start);
        let w = walk(i0.parents(), start, Seq::empty());
        assert forall|g: Name| #[trigger] r@.contains(g) <==> stays(
            i0,
            available@,
            export,
            g,
        ) by {
            if w.contains(g) {
                let s = choose|s: Name| #[trigger]
                    start.contains(s) && reaches(i0.parents(), s, g);
                assert(src.contains(s) && pred(s));
                assert(i0.groups.dom().contains(s));
                assert(reaches(i0.parents(), s, g));
            }
            if stays(i0, available@, export, g) {
                let s = choose|s: Name| #[trigger]
                    reaches(i0.parents(), s, g) && i0.groups.dom().contains(s) && contributes(
                        i0,
                        available@,
                        export,
                        s,
                    );
                assert(src.contains(s));
                assert(pred(s));
                assert(start.contains(s));
            }
        }
        assert(r@ =~= Set::new(|g: Name| stays(i0, available@, export, g)));
    }
    r
}

/// What shapes the trees for given arguments.
fn make_scope<'a>(
    inv: &InventoryData,
    available: Available<'a>,
    export: bool,
    pruning: GroupPruning,
) -> (r: Scope<'a>)
    requires
        inv@.wf(),
    ensures
        r@ == scope(inv@, available@, export, pruning),
{
    let retained = match pruning {
        GroupPruning::GraphAware => Some(retained_groups(inv, available, export)),
        GroupPruning::AnsibleCompatible => None,
    };
    Scope { available, export, retained }
}

/// Whether a group stays.
fn keeps(sc: &Scope, g: &str) -> (r: bool)
    ensures
        r == sc@.keeps(g@),
{
    match &sc.retained {
        Some(s) => s.contains(g),
        None => true,
    }
}

/// The children of a group that stay.
fn kept_children(inv: &InventoryData, sc: &Scope, g: &str) -> (r: Vec<String>)
    requires
        inv@.groups.dom().contains(g@),
    ensures
        names(r@) == sc@.kept_children(inv@, g@),
{
    let ghost pred = |c: Name| sc@.keeps(c);
    let mut out: Vec<String> = Vec::new();
    match inv.group(g) {
        Some(grp) => {
            let ghost src = names(grp.children@);
            assert(names(out@) =~= Seq::empty());
            assert(src.take(0).filter(pred) =~= Seq::empty()) by {
                reveal(Seq::filter);
            }
            let mut i: usize = 0;
            while i < grp.children.len()
                invariant
                    i <= grp.children.len(),
                    src == names(grp.children@),
                    pred == (|c: Name| sc@.keeps(c)),
                    names(out@) == src.take(i as int).filter(pred),
                decreases grp.children.len() - i,
            {
                proof {
                    reveal(Seq::filter);
                    assert(src.take(i + 1).drop_last() =~= src.take(i as int));
                    assert(src[i as int] == grp.children@[i as int]@);
                    lemma_names_push(out@, grp.children@[i as int]);
                }
                if keeps(sc, grp.children[i].as_str()) {
                    out.push(grp.children[i].clone());
                }
                i += 1;
            }
            assert(src.take(i as int) =~= src);
        },
        None => {},
    }
    out
}

/// The visible hosts of a group.
fn shown_hosts(inv: &InventoryData, sc: &Scope, g: &str) -> (r: Vec<String>)
    requires
        inv@.groups.dom().contains(g@),
    ensures
        names(r@) == sc@.shown_hosts(inv@, g@),
{
    let ghost pred = |h: Name| sc@.available.contains(h);
    let mut out: Vec<String> = Vec::new();
    assert(names(out@) =~= Seq::empty());
    if same(g, ALL) {
        return out;
    }
    match inv.group(g) {
        Some(grp) => {
            let ghost src = names(grp.hosts@);
            assert(src.take(0).filter(pred) =~= Seq::empty()) by {
                reveal(Seq::filter);
            }
            let mut i: usize = 0;
            while i < grp.hosts.len()
                invariant
                    i <= grp.hosts.len(),
                    src == names(grp.hosts@),
                    pred == (|h: Name| sc@.available.contains(h)),
                    names(out@) == src.take(i as int).filter(pred),
                decreases grp.hosts.len() - i,
            {
                proof {
                    reveal(Seq::filter);
                    assert(src.take(i + 1).drop_last() =~= src.take(i as int));
                    assert(src[i as int] == grp.hosts@[i as int]@);
                    lemma_names_push(out@, grp.hosts@[i as int]);
                }
                if sc.available.contains(grp.hosts[i].as_str()) {
                    out.push(grp.hosts[i].clone());
                }
                i += 1;
            }
            assert(src.take(i as int) =~= src);
        },
        None => {},
    }
    out
}

/// Puts a list under a key, unless it is empty.
fn insert_list(e: &mut VarMap, k: &str, ns: &Vec<String>)
    ensures
        final(e)@ == put_list(old(e)@, k@, names(ns@)),
{
    if ns.len() > 0 {
        let mut out: Vec<Value> = Vec::new();
        let mut i: usize = 0;
        while i < ns.len()
            invariant
                i <= ns.len(),
                out@.len() == i,
                forall|j: int| 0 <= j < i ==> (#[trigger] out@[j])@ == ValueView::Text(ns@[j]@),
            decreases ns.len() - i,
        {
            out.push(Value::Text(ns[i].clone()));
            i += 1;
        }
        proof {
            lemma_list_view(out);
            assert(Value::List(out)@ == texts(names(ns@))) by {
                assert(values(out@) =~= texts(names(ns@))->List_0);
            }
        }
        e.insert(k.to_owned(), Value::List(out));
    }
}

/// Puts a map under a key, unless it is empty.
fn insert_dict(e: &mut VarMap, k: &str, m: VarMap)
    ensures
        final(e)@ == put_dict(old(e)@, k@, m@),
{
    if !m.is_empty() {
        e.insert(k.to_owned(), Value::Dict(m));
    }
}

/// Puts a group's variables into its entry, under export.
fn insert_group_vars(inv: &InventoryData, sc: &Scope, g: &str, e: &mut VarMap)
    ensures
        final(e)@ == put_dict(old(e)@, "vars"@, sc@.group_vars(inv@, g@)),
{
    if sc.export {
        insert_dict(e, "vars", group_export_vars(inv, g));
    }
}

/// Adds a group and what is below it to the flat list.
fn format_group(
    inv: &InventoryData,
    sc: &Scope,
    group: &str,
    seen: &mut NameSet,
    out: &mut VarMap,
)
    requires
        inv@.wf(),
        inv@.groups.dom().finite(),
    ensures
        (final(seen)@, final(out)@) == list_group(inv@, sc@, group@, old(seen)@, old(out)@),
        old(seen)@.subset_of(final(seen)@),
    decreases inv@.groups.dom().difference(old(seen)@).len(),
{
    if inv.group(group).is_none() {
        return;
    }
    let ghost i0 = inv@;
    let ghost (seen0, out0) = (seen@, out@);
    let cs = kept_children(inv, sc, group);
    let ghost ns = names(cs@);
    let mut k: usize = 0;
    assert(ns.skip(0) =~= ns);
    while k < cs.len()
        invariant
            k <= cs.len(),
            i0 == inv@,
            i0.wf(),
            i0.groups.dom().finite(),
            ns == names(cs@),
            seen0.subset_of(seen@),
            seen0 == old(seen)@,
            list_children(i0, sc@, ns.skip(k as int), seen@, out@) == list_children(
                i0,
                sc@,
                ns,
                seen0,
                out0,
            ),
        decreases cs.len() - k,
    {
        let c = &cs[k];
        proof {
            assert(ns[k as int] == c@);
            assert(ns.skip(k as int).drop_first() =~= ns.skip(k + 1));
        }
        if !seen.contains(c.as_str()) && inv.group(c.as_str()).is_some() {
            let ghost now = seen@.insert(c@);
            proof {
                lemma_enter(i0.groups.dom(), seen0, now, c@);
            }
            seen.insert(c.clone());
            format_group(inv, sc, c.as_str(), seen, out);
            assert(now.union(seen@) =~= seen@);
        }
        k += 1;
    }
    assert(ns.skip(k as int) =~= Seq::empty());
    let mut entry = VarMap::new();
    let hosts = shown_hosts(inv, sc, group);
    insert_list(&mut entry, "hosts", &hosts);
    insert_list(&mut entry, "children", &cs);
    insert_group_vars(inv, sc, group, &mut entry);
    insert_dict(out, group, entry);
}

/// Builds the flat list: the group entries and `_meta.hostvars`. `export` shows the
/// variables where they were set instead of resolved.
pub fn build_list(
    inv: &InventoryData,
    available: Available,
    export: bool,
    pruning: GroupPruning,
) -> (r: Value)
    requires
        inv@.wf(),
    ensures
        r@ == ValueView::Dict(list_tree(inv@, scope(inv@, available@, export, pruning))),
{
    proof {
        lemma_wf_finite(inv@);
    }
    let sc = make_scope(inv, available, export, pruning);
    let mut results = VarMap::new();
    let mut seen = NameSet::new();
    format_group(inv, &sc, ALL, &mut seen, &mut results);
    let mut hostvars = VarMap::new();
    let hosts = inv.host_names();
    let ghost hs = names(hosts@);
    let mut i: usize = 0;
    while i < hosts.len()
        invariant
            i <= hosts.len(),
            inv@.wf(),
            hs == names(hosts@),
            sc@ == scope(inv@, available@, export, pruning),
            hostvars@ == meta_hostvars(inv@, sc@, hs.take(i as int)),
        decreases hosts.len() - i,
    {
        proof {
            assert(hs[i as int] == hosts@[i as int]@);
            assert(hs.take(i + 1).drop_last() =~= hs.take(i as int));
        }
        if available.contains(hosts[i].as_str()) {
            insert_dict(
                &mut hostvars,
                hosts[i].as_str(),
                host_vars_for(inv, hosts[i].as_str(), export),
            );
        }
        i += 1;
    }
    assert(hs.take(i as int) =~= hs);
    let ghost hv = hostvars@;
    let mut meta = VarMap::new();
    meta.insert("hostvars".to_owned(), Value::Dict(hostvars));
    assert(meta@ =~= seq![("hostvars"@, ValueView::Dict(hv))]);
    results.insert("_meta".to_owned(), Value::Dict(meta));
    Value::Dict(results)
}

/// The variables of one host; `None` where there is no such host.
pub fn build_host(inv: &InventoryData, host: &str, export: bool) -> (r: Option<Value>)
    requires
        inv@.wf(),
    ensures
        r is Some <==> inv@.hosts.dom().contains(host@),
        r matches Some(v) ==> v@ == ValueView::Dict(shown_vars(inv@, host@, export)),
{
    if inv.host(host).is_none() {
        return None;
    }
    Some(Value::Dict(host_vars_for(inv, host, export)))
}

/// The hosts map of a group.
fn format_hosts(inv: &InventoryData, sc: &Scope, hs: &Vec<String>, shown: &mut NameSet) -> (r:
    VarMap)
    requires
        inv@.wf(),
    ensures
        (r@, final(shown)@) == hosts_map(inv@, sc@, names(hs@), old(shown)@),
{
    let ghost ns = names(hs@);
    let ghost before = shown@;
    let mut m = VarMap::new();
    let mut i: usize = 0;
    while i < hs.len()
        invariant
            i <= hs.len(),
            inv@.wf(),
            ns == names(hs@),
            (m@, shown@) == hosts_map(inv@, sc@, ns.take(i as int), before),
        decreases hs.len() - i,
    {
        proof {
            assert(ns[i as int] == hs@[i as int]@);
            assert(ns.take(i + 1).drop_last() =~= ns.take(i as int));
        }
        let vars = if shown.insert(hs[i].clone()) {
            host_vars_for(inv, hs[i].as_str(), sc.export)
        } else {
            VarMap::new()
        };
        m.insert(hs[i].clone(), Value::Dict(vars));
        i += 1;
    }
    assert(ns.take(i as int) =~= ns);
    m
}

/// The children that the nested tree shows of a group.
fn children_to_nest(inv: &InventoryData, sc: &Scope, g: &str) -> (r: Vec<String>)
    requires
        inv@.groups.dom().contains(g@),
    ensures
        names(r@) == nested_children(inv@, sc@, g@),
{
    let ghost pred = |s: Name| s != ALL@ && sc@.keeps(s);
    let mut out: Vec<String> = Vec::new();
    match inv.group(g) {
        Some(grp) => {
            let ghost src = names(grp.children@);
            assert(names(out@) =~= Seq::empty());
            assert(src.take(0).filter(pred) =~= Seq::empty()) by {
                reveal(Seq::filter);
            }
            let mut i: usize = 0;
            while i < grp.children.len()
                invariant
                    i <= grp.children.len(),
                    src == names(grp.children@),
                    pred == (|s: Name| s != ALL@ && sc@.keeps(s)),
                    names(out@) == src.take(i as int).filter(pred),
                decreases grp.children.len() - i,
            {
                proof {
                    reveal(Seq::filter);
                    assert(src.take(i + 1).drop_last() =~= src.take(i as int));
                    assert(src[i as int] == grp.children@[i as int]@);
                    lemma_names_push(out@, grp.children@[i as int]);
                }
                let sub = &grp.children[i];
                if !same(sub.as_str(), ALL) && keeps(sc, sub.as_str()) {
                    out.push(sub.clone());
                }
                i += 1;
            }
            assert(src.take(i as int) =~= src);
        },
        None => {},
    }
    out
}

/// The nested tree of a group.
fn format_group_yaml(
    inv: &InventoryData,
    sc: &Scope,
    group: &str,
    seen_hosts: &mut NameSet,
    seen_groups: &mut NameSet,
) -> (r: VarMap)
    requires
        inv@.wf(),
        inv@.groups.dom().finite(),
    ensures
        (r@, final(seen_hosts)@, final(seen_groups)@) == nested_group(
            inv@,
            sc@,
            group@,
            old(seen_hosts)@,
            old(seen_groups)@,
        ),
        old(seen_groups)@.subset_of(final(seen_groups)@),
    decreases inv@.groups.dom().difference(old(seen_groups)@).len(),
{
    if inv.group(group).is_none() {
        return VarMap::new();
    }
    let ghost i0 = inv@;
    let ghost (h0, s0) = (seen_hosts@, seen_groups@);
    let cs = children_to_nest(inv, sc, group);
    let ghost ns = names(cs@);
    let mut children = VarMap::new();
    let mut k: usize = 0;
    assert(ns.skip(0) =~= ns);
    while k < cs.len()
        invariant
            k <= cs.len(),
            i0 == inv@,
            i0.wf(),
            i0.groups.dom().finite(),
            ns == names(cs@),
            s0.subset_of(seen_groups@),
            s0 == old(seen_groups)@,
            nested_group_children(
                i0,
                sc@,
                ns.skip(k as int),
                children@,
                seen_hosts@,
                seen_groups@,
            ) == nested_group_children(i0, sc@, ns, Seq::empty(), h0, s0),
        decreases cs.len() - k,
    {
        let c = &cs[k];
        proof {
            assert(ns[k as int] == c@);
            assert(ns.skip(k as int).drop_first() =~= ns.skip(k + 1));
        }
        if seen_groups.contains(c.as_str()) {
            children.insert(c.clone(), Value::Dict(VarMap::new()));
        } else if inv.group(c.as_str()).is_some() {
            let ghost now = seen_groups@.insert(c@);
            proof {
                lemma_enter(i0.groups.dom(), s0, now, c@);
            }
            seen_groups.insert(c.clone());
            let sub = format_group_yaml(inv, sc, c.as_str(), seen_hosts, seen_groups);
            children.extend(&sub);
            assert(now.union(seen_groups@) =~= seen_groups@);
        }
        k += 1;
    }
    assert(ns.skip(k as int) =~= Seq::empty());
    let mut entry = VarMap::new();
    insert_dict(&mut entry, "children", children);
    let hs = shown_hosts(inv, sc, group);
    let hosts = format_hosts(inv, sc, &hs, seen_hosts);
    insert_dict(&mut entry, "hosts", hosts);
    insert_group_vars(inv, sc, group, &mut entry);
    let mut out = VarMap::new();
    insert_dict(&mut out, group, entry);
    out
}

/// Builds the nested tree below `all`.
pub fn build_yaml(
    inv: &InventoryData,
    available: Available,
    export: bool,
    pruning: GroupPruning,
) -> (r: Value)
    requires
        inv@.wf(),
    ensures
        r@ == ValueView::Dict(nested_tree(inv@, scope(inv@, available@, export, pruning))),
{
    proof {
        lemma_wf_finite(inv@);
    }
    let sc = make_scope(inv, available, export, pruning);
    let mut seen_hosts = NameSet::new();
    let mut seen_groups = NameSet::new();
    Value::Dict(format_group_yaml(inv, &sc, ALL, &mut seen_hosts, &mut seen_groups))
}

/// The state of building the flat table.
struct TomlFormatState<'a> {
    scope: Scope<'a>,
    has_ungrouped: bool,
    seen_groups: NameSet,
    seen_hosts: NameSet,
    out: VarMap,
}

/// The children that the flat table follows from a group.
fn children_to_tabulate(inv: &InventoryData, sc: &Scope, has_ungrouped: bool, g: &str) -> (r: Vec<
    String,
>)
    requires
        inv@.groups.dom().contains(g@),
        has_ungrouped == (inv@.groups[UNGROUPED@].hosts.len() > 0),
    ensures
        names(r@) == table_children(inv@, sc@, g@),
{
    let ghost i0 = inv@;
    let ghost pred = |s: Name|
        sc@.keeps(s) && !(sc@.retained is None && s == UNGROUPED@
            && i0.groups[UNGROUPED@].hosts.len() == 0);
    let mut out: Vec<String> = Vec::new();
    match inv.group(g) {
        Some(grp) => {
            let ghost src = names(grp.children@);
            assert(names(out@) =~= Seq::empty());
            assert(src.take(0).filter(pred) =~= Seq::empty()) by {
                reveal(Seq::filter);
            }
            let mut i: usize = 0;
            while i < grp.children.len()
                invariant
                    i <= grp.children.len(),
                    src == names(grp.children@),
                    has_ungrouped == (i0.groups[UNGROUPED@].hosts.len() > 0),
                    pred == (|s: Name|
                        sc@.keeps(s) && !(sc@.retained is None && s == UNGROUPED@
                            && i0.groups[UNGROUPED@].hosts.len() == 0)),
                    names(out@) == src.take(i as int).filter(pred),
                decreases grp.children.len() - i,
            {
                proof {
                    reveal(Seq::filter);
                    assert(src.take(i + 1).drop_last() =~= src.take(i as int));
                    assert(src[i as int] == grp.children@[i as int]@);
                    lemma_names_push(out@, grp.children@[i as int]);
                }
                let sub = &grp.children[i];
                if keeps(sc, sub.as_str()) && !(sc.retained.is_none() && same(
                    sub.as_str(),
                    UNGROUPED,
                ) && !has_ungrouped) {
                    out.push(sub.clone());
                }
                i += 1;
            }
            assert(src.take(i as int) =~= src);
        },
        None => {},
    }
    out
}

/// Adds a group and what is below it to the flat table.
fn format_group_toml(inv: &InventoryData, group: &str, state: &mut TomlFormatState<'_>)
    requires
        inv@.wf(),
        inv@.groups.dom().finite(),
        old(state).has_ungrouped == (inv@.groups[UNGROUPED@].hosts.len() > 0),
    ensures
        (final(state).seen_groups@, final(state).seen_hosts@, final(state).out@) == table_group(
            inv@,
            old(state).scope@,
            group@,
            old(state).seen_groups@,
            old(state).seen_hosts@,
            old(state).out@,
        ),
        final(state).scope == old(state).scope,
        final(state).has_ungrouped == old(state).has_ungrouped,
        old(state).seen_groups@.subset_of(final(state).seen_groups@),
    decreases inv@.groups.dom().difference(old(state).seen_groups@).len(),
{
    if inv.group(group).is_none() {
        return;
    }
    let ghost i0 = inv@;
    let ghost sc = state.scope@;
    let ghost (s0, h0, o0) = (state.seen_groups@, state.seen_hosts@, state.out@);
    let cs = children_to_tabulate(inv, &state.scope, state.has_ungrouped, group);
    let ghost ns = names(cs@);
    let mut k: usize = 0;
    assert(ns.skip(0) =~= ns);
    while k < cs.len()
        invariant
            k <= cs.len(),
            i0 == inv@,
            i0.wf(),
            i0.groups.dom().finite(),
            ns == names(cs@),
            state.scope == old(state).scope,
            state.has_ungrouped == old(state).has_ungrouped,
            state.has_ungrouped == (i0.groups[UNGROUPED@].hosts.len() > 0),
            sc == state.scope@,
            s0 == old(state).seen_groups@,
            s0.subset_of(state.seen_groups@),
            table_group_children(
                i0,
                sc,
                ns.skip(k as int),
                state.seen_groups@,
                state.seen_hosts@,
                state.out@,
            ) == table_group_children(i0, sc, ns, s0, h0, o0),
        decreases cs.len() - k,
    {
        let c = &cs[k];
        proof {
            assert(ns[k as int] == c@);
            assert(ns.skip(k as int).drop_first() =~= ns.skip(k + 1));
        }
        if !state.seen_groups.contains(c.as_str()) && inv.group(c.as_str()).is_some() {
            let ghost seen = state.seen_groups@;
            let ghost now = seen.insert(c@);
            proof {
                lemma_enter(i0.groups.dom(), s0, now, c@);
            }
            state.seen_groups.insert(c.clone());
            format_group_toml(inv, c.as_str(), state);
            assert(now.union(state.seen_groups@) =~= state.seen_groups@);
        }
        k += 1;
    }
    assert(ns.skip(k as int) =~= Seq::empty());
    let mut entry = VarMap::new();
    if !same(group, ALL) {
        insert_list(&mut entry, "children", &cs);
    }
    let hs = shown_hosts(inv, &state.scope, group);
    let hosts = format_hosts(inv, &state.scope, &hs, &mut state.seen_hosts);
    insert_dict(&mut entry, "hosts", hosts);
    insert_group_vars(inv, &state.scope, group, &mut entry);
    insert_dict(&mut state.out, group, entry);
}

/// Builds the flat table: an entry for each group, `all` without its children.
pub fn build_toml(
    inv: &InventoryData,
    available: Available,
    export: bool,
    pruning: GroupPruning,
) -> (r: Value)
    requires
        inv@.wf(),
    ensures
        r@ == ValueView::Dict(table_tree(inv@, scope(inv@, available@, export, pruning))),
{
    proof {
        lemma_wf_finite(inv@);
    }
    let has_ungrouped = match inv.group(UNGROUPED) {
        Some(g) => g.hosts.len() > 0,
        None => false,
    };
    let mut seen_groups = NameSet::new();
    seen_groups.insert(ALL.to_owned());
    assert(seen_groups@ =~= set![ALL@]);
    let mut state = TomlFormatState {
        scope: make_scope(inv, available, export, pruning),
        has_ungrouped,
        seen_groups,
        seen_hosts: NameSet::new(),
        out: VarMap::new(),
    };
    format_group_toml(inv, ALL, &mut state);
    Value::Dict(state.out)
}

} // verus!
