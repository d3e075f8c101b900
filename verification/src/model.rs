//! The inventory: hosts, groups, and the container that owns them.
//!
//! Group depth and `ansible_group_priority` are kept here because they decide which
//! variables win (see `vars`).

use vstd::prelude::*;
use vstd::hash_set::StringHashSet;
use indexmap::IndexMap;
use crate::assoc::{get, holds, keys, lemma_pos, lemma_put_get, put, Name};
use crate::depths::{below, bounded, closed, cycle_below, lemma_closed_no_cycle, lemma_cycle_below, lemma_cycle_found, lemma_done, lemma_moved, lemma_open, lemma_reach_closed, lemma_sunk, lemma_sunk_leads_down, moved, no_cycle, on_cycle, only_deeper, push_children, pushed, reach, sunk, sunk_children, Depths};
use crate::graph::{lemma_closed_reaches, lemma_reaches_self, lemma_reaches_step, lemma_unseen_shrinks, lemma_walk_is_reach, reaches, steps, walk, Edges};
use crate::nameset::NameSet;
use crate::sanitize::{is_safe, lemma_safe_name_fixed, safe_name, to_safe_group_name};
use crate::text::{copy_list, dec, law_decimal_reads_back, lemma_dec_is_trimmed, lemma_names_push, list_has, names, parse_i64, parse_i64_spec, same, trim, trim_text};
use crate::value::{as_i64, Value, ValueView, VarMap, VarsView};

verus! {

/// The group at the root of the group tree; always present.
pub const ALL: &'static str = "all";

/// The group of every host that belongs to no other group; always present.
pub const UNGROUPED: &'static str = "ungrouped";

/// A host.
#[derive(Debug)]
pub struct Host {
    pub name: String,
    pub vars: VarMap,
    /// Variables of adjacent `host_vars/<name>` files; they win over `vars`.
    pub file_vars: VarMap,
    /// The groups the host was explicitly added to, other than `all` and `ungrouped`.
    pub groups: Vec<String>,
}

/// A group.
#[derive(Debug)]
pub struct Group {
    pub name: String,
    /// Distance from `all`.
    pub depth: u32,
    /// `ansible_group_priority`; 1 unless it was set.
    pub priority: i64,
    pub hosts: Vec<String>,
    pub children: Vec<String>,
    pub parents: Vec<String>,
    pub vars: VarMap,
    /// Variables of adjacent `group_vars/<name>` files; they win over `vars`.
    pub file_vars: VarMap,
}

/// All hosts and groups, in the order in which they were first seen.
#[derive(Debug)]
pub struct InventoryData {
    pub hosts: IndexMap<String, Host>,
    pub groups: IndexMap<String, Group>,
}

/// What a host is.
#[verifier::ext_equal]
pub struct HostView {
    pub name: Name,
    pub vars: VarsView,
    pub file_vars: VarsView,
    pub groups: Seq<Name>,
}

/// What a group is.
#[verifier::ext_equal]
pub struct GroupView {
    pub name: Name,
    pub depth: nat,
    pub priority: int,
    pub hosts: Seq<Name>,
    pub children: Seq<Name>,
    pub parents: Seq<Name>,
    pub vars: VarsView,
    pub file_vars: VarsView,
}

/// What an inventory is: its hosts and groups by name, and the orders they came in.
#[verifier::ext_equal]
pub struct InvView {
    pub hosts: Map<Name, HostView>,
    pub host_order: Seq<Name>,
    pub groups: Map<Name, GroupView>,
    pub group_order: Seq<Name>,
}

impl View for Host {
    type V = HostView;

    open spec fn view(&self) -> HostView {
        HostView {
            name: self.name@,
            vars: self.vars@,
            file_vars: self.file_vars@,
            groups: names(self.groups@),
        }
    }
}

impl View for Group {
    type V = GroupView;

    open spec fn view(&self) -> GroupView {
        GroupView {
            name: self.name@,
            depth: self.depth as nat,
            priority: self.priority as int,
            hosts: names(self.hosts@),
            children: names(self.children@),
            parents: names(self.parents@),
            vars: self.vars@,
            file_vars: self.file_vars@,
        }
    }
}

impl View for InventoryData {
    type V = InvView;

    open spec fn view(&self) -> InvView {
        InvView {
            hosts: Map::new(
                |k: Name| holds(host_entries(self.hosts), k),
                |k: Name| get(host_entries(self.hosts), k).unwrap()@,
            ),
            host_order: keys(host_entries(self.hosts)),
            groups: Map::new(
                |k: Name| holds(group_entries(self.groups), k),
                |k: Name| get(group_entries(self.groups), k).unwrap()@,
            ),
            group_order: keys(group_entries(self.groups)),
        }
    }
}

// ---------------------------------------------------------------------------------------
// `indexmap::IndexMap`
// ---------------------------------------------------------------------------------------

/// `indexmap::IndexMap`: an insertion-ordered hash map.
#[verifier::external_type_specification]
#[verifier::external_body]
#[verifier::reject_recursive_types(K)]
#[verifier::reject_recursive_types(V)]
#[verifier::reject_recursive_types(S)]
pub struct ExIndexMap<K, V, S>(indexmap::IndexMap<K, V, S>);

/// The entries of a map of hosts, in insertion order.
pub uninterp spec fn host_entries(m: IndexMap<String, Host>) -> Seq<(Name, Host)>;

/// The entries of a map of groups, in insertion order.
pub uninterp spec fn group_entries(m: IndexMap<String, Group>) -> Seq<(Name, Group)>;

/// `IndexMap::new`: a map without entries.
#[verifier::external_body]
fn hosts_new() -> (r: IndexMap<String, Host>)
    ensures
        host_entries(r) == Seq::<(Name, Host)>::empty(),
{
    IndexMap::new()
}

/// `IndexMap::new`: a map without entries.
#[verifier::external_body]
fn groups_new() -> (r: IndexMap<String, Group>)
    ensures
        group_entries(r) == Seq::<(Name, Group)>::empty(),
{
    IndexMap::new()
}

/// `IndexMap::insert`: replaces the value of an entry that is there, keeping its position;
/// appends a new entry otherwise.
#[verifier::external_body]
fn hosts_insert(m: &mut IndexMap<String, Host>, k: String, v: Host)
    ensures
        host_entries(*final(m)) == put(host_entries(*old(m)), k@, v),
{
    m.insert(k, v);
}

/// `IndexMap::insert`: replaces the value of an entry that is there, keeping its position;
/// appends a new entry otherwise.
#[verifier::external_body]
fn groups_insert(m: &mut IndexMap<String, Group>, k: String, v: Group)
    ensures
        group_entries(*final(m)) == put(group_entries(*old(m)), k@, v),
{
    m.insert(k, v);
}

/// `IndexMap::get`: the value of the entry under the key.
#[verifier::external_body]
fn hosts_get<'a>(m: &'a IndexMap<String, Host>, k: &str) -> (r: Option<&'a Host>)
    ensures
        r == (match get(host_entries(*m), k@) {
            Some(h) => Some(&h),
            None => None,
        }),
{
    m.get(k)
}

/// `IndexMap::get`: the value of the entry under the key.
#[verifier::external_body]
fn groups_get<'a>(m: &'a IndexMap<String, Group>, k: &str) -> (r: Option<&'a Group>)
    ensures
        r == (match get(group_entries(*m), k@) {
            Some(g) => Some(&g),
            None => None,
        }),
{
    m.get(k)
}

/// `IndexMap::get_mut`: the value of the entry under the key; what is written through the
/// reference becomes that entry's value, and nothing else changes.
#[verifier::external_body]
fn hosts_get_mut<'a>(m: &'a mut IndexMap<String, Host>, k: &str) -> (r: Option<&'a mut Host>)
    ensures
        r is Some <==> holds(host_entries(*old(m)), k@),
        r matches Some(h) ==> get(host_entries(*old(m)), k@) == Some(*h) && host_entries(*final(m))
            == put(host_entries(*old(m)), k@, *final(h)),
        r is None ==> host_entries(*final(m)) == host_entries(*old(m)),
{
    m.get_mut(k)
}

/// `IndexMap::get_mut`: the value of the entry under the key; what is written through the
/// reference becomes that entry's value, and nothing else changes.
#[verifier::external_body]
fn groups_get_mut<'a>(m: &'a mut IndexMap<String, Group>, k: &str) -> (r: Option<&'a mut Group>)
    ensures
        r is Some <==> holds(group_entries(*old(m)), k@),
        r matches Some(g) ==> get(group_entries(*old(m)), k@) == Some(*g) && group_entries(
            *final(m),
        ) == put(group_entries(*old(m)), k@, *final(g)),
        r is None ==> group_entries(*final(m)) == group_entries(*old(m)),
{
    m.get_mut(k)
}

/// `IndexMap::len`: the number of entries.
#[verifier::external_body]
fn hosts_len(m: &IndexMap<String, Host>) -> (r: usize)
    ensures
        r == host_entries(*m).len(),
{
    m.len()
}

/// `IndexMap::len`: the number of entries.
#[verifier::external_body]
fn groups_len(m: &IndexMap<String, Group>) -> (r: usize)
    ensures
        r == group_entries(*m).len(),
{
    m.len()
}

/// `IndexMap::get_index`: the key of the entry at a position of the insertion order.
#[verifier::external_body]
fn hosts_key_at<'a>(m: &'a IndexMap<String, Host>, i: usize) -> (r: Option<&'a String>)
    ensures
        r is Some <==> i < host_entries(*m).len(),
        r matches Some(k) ==> k@ == host_entries(*m)[i as int].0,
{
    m.get_index(i).map(|e| e.0)
}

/// `IndexMap::get_index`: the key of the entry at a position of the insertion order.
#[verifier::external_body]
fn groups_key_at<'a>(m: &'a IndexMap<String, Group>, i: usize) -> (r: Option<&'a String>)
    ensures
        r is Some <==> i < group_entries(*m).len(),
        r matches Some(k) ==> k@ == group_entries(*m)[i as int].0,
{
    m.get_index(i).map(|e| e.0)
}

// ---------------------------------------------------------------------------------------
// What is well formed
// ---------------------------------------------------------------------------------------

/// Every item of `s` is in `d`.
pub open spec fn within(s: Seq<Name>, d: Set<Name>) -> bool {
    forall|i: int| 0 <= i < s.len() ==> d.contains(#[trigger] s[i])
}

/// `order` lists the keys `d`, each once.
pub open spec fn lists(order: Seq<Name>, d: Set<Name>) -> bool {
    &&& order.no_duplicates()
    &&& forall|k: Name| #[trigger] d.contains(k) <==> order.contains(k)
}

/// A group other than the two special ones.
pub open spec fn is_plain(g: Name) -> bool {
    g != ALL@ && g != UNGROUPED@
}

impl InvView {
    /// The invariant of an inventory: entries stand under their names, the two special
    /// groups are there, the names of groups are safe, every name that is referred to
    /// exists, no list repeats itself, and both ends of every link know of it.
    pub open spec fn wf(self) -> bool {
        &&& lists(self.host_order, self.hosts.dom())
        &&& lists(self.group_order, self.groups.dom())
        &&& self.groups.dom().contains(ALL@)
        &&& self.groups.dom().contains(UNGROUPED@)
        &&& forall|h: Name| #[trigger] self.hosts.dom().contains(h) ==> self.host_wf(h)
        &&& forall|g: Name| #[trigger] self.groups.dom().contains(g) ==> self.group_wf(g)
    }

    /// The part of the invariant that is about one host.
    pub open spec fn host_wf(self, h: Name) -> bool {
        let v = self.hosts[h];
        &&& v.name == h
        &&& v.groups.no_duplicates()
        &&& within(v.groups, self.groups.dom())
        &&& !v.groups.contains(ALL@)
        &&& !v.groups.contains(UNGROUPED@)
        &&& forall|g: Name| #[trigger]
            v.groups.contains(g) ==> self.groups[g].hosts.contains(h)
    }

    /// The part of the invariant that is about one group.
    pub open spec fn group_wf(self, g: Name) -> bool {
        let v = self.groups[g];
        &&& v.name == g
        &&& is_safe(g)
        &&& v.depth <= u32::MAX
        &&& v.hosts.no_duplicates()
        &&& v.children.no_duplicates()
        &&& v.parents.no_duplicates()
        &&& within(v.hosts, self.hosts.dom())
        &&& within(v.children, self.groups.dom())
        &&& within(v.parents, self.groups.dom())
        &&& !v.children.contains(g)
        &&& forall|h: Name| #[trigger]
            v.hosts.contains(h) && is_plain(g) ==> self.hosts[h].groups.contains(g)
        &&& forall|c: Name| #[trigger]
            v.children.contains(c) ==> self.groups[c].parents.contains(g)
        &&& forall|p: Name| #[trigger]
            v.parents.contains(p) ==> self.groups[p].children.contains(g)
    }

    /// The child links.
    pub open spec fn children(self) -> Edges {
        self.groups.map_values(|g: GroupView| g.children)
    }

    /// The parent links.
    pub open spec fn parents(self) -> Edges {
        self.groups.map_values(|g: GroupView| g.parents)
    }

    /// The inventory with `v` as its group `g`.
    pub open spec fn with_group(self, g: Name, v: GroupView) -> InvView {
        InvView {
            groups: self.groups.insert(g, v),
            group_order: if self.groups.dom().contains(g) {
                self.group_order
            } else {
                self.group_order.push(g)
            },
            ..self
        }
    }

    /// The inventory with `v` as its host `h`.
    pub open spec fn with_host(self, h: Name, v: HostView) -> InvView {
        InvView {
            hosts: self.hosts.insert(h, v),
            host_order: if self.hosts.dom().contains(h) {
                self.host_order
            } else {
                self.host_order.push(h)
            },
            ..self
        }
    }

    /// The inventory with a group of this name, made new where there was none.
    pub open spec fn add_group(self, raw: Name) -> InvView {
        if self.groups.dom().contains(safe_name(raw)) {
            self
        } else {
            self.with_group(safe_name(raw), new_group(safe_name(raw)))
        }
    }

    /// The inventory with a host of this name, made new where there was none.
    pub open spec fn add_host(self, h: Name) -> InvView {
        if self.hosts.dom().contains(h) {
            self
        } else {
            self.with_host(h, new_host(h))
        }
    }

    /// The inventory with host `h` in group `g`.
    pub open spec fn add_host_to_group(self, h: Name, g: Name) -> InvView {
        let v = self.groups[g];
        let i = self.with_group(g, GroupView { hosts: with_name(v.hosts, h), ..v });
        if is_plain(g) {
            let w = i.hosts[h];
            i.with_host(h, HostView { groups: with_name(w.groups, g), ..w })
        } else {
            i
        }
    }

    /// The inventory with one variable of a group set; `ansible_group_priority` sets the
    /// group's priority instead, where it reads as an integer, and is otherwise dropped.
    pub open spec fn set_group_var(self, g: Name, k: Name, x: ValueView) -> InvView {
        let v = self.groups[g];
        if k == PRIORITY_VAR@ {
            match priority_of(x) {
                Some(p) => self.with_group(g, GroupView { priority: p as int, ..v }),
                None => self,
            }
        } else {
            self.with_group(g, GroupView { vars: put(v.vars, k, x), ..v })
        }
    }

    /// The inventory with one variable of a host set.
    pub open spec fn set_host_var(self, h: Name, k: Name, x: ValueView) -> InvView {
        let v = self.hosts[h];
        self.with_host(h, HostView { vars: put(v.vars, k, x), ..v })
    }

    /// The inventory with `c` linked under `p`, depths not yet adjusted.
    pub open spec fn link(self, p: Name, c: Name) -> InvView {
        let v = self.groups[p];
        let i = self.with_group(p, GroupView { children: with_name(v.children, c), ..v });
        let w = i.groups[c];
        i.with_group(c, GroupView { parents: with_name(w.parents, p), ..w })
    }

    /// The inventory with `c` linked under `p`; a group is never its own child.
    pub open spec fn add_child(self, p: Name, c: Name) -> InvView {
        if p == c {
            self
        } else {
            let i = self.link(p, c);
            InvView { groups: deepen(i.groups, p, c), ..i }
        }
    }

    /// The groups other than `all` that have no parent, in order.
    pub open spec fn orphan_groups(self) -> Seq<Name> {
        self.group_order.filter(|g: Name| g != ALL@ && self.groups[g].parents.len() == 0)
    }

    /// The inventory with each of these groups linked under `all`, in turn.
    pub open spec fn adopt(self, gs: Seq<Name>) -> InvView
        decreases gs.len(),
    {
        if gs.len() == 0 {
            self
        } else {
            self.adopt(gs.drop_last()).add_child(ALL@, gs.last())
        }
    }

    /// The hosts in no group but, possibly, the special ones, in order.
    pub open spec fn orphan_hosts(self) -> Seq<Name> {
        self.host_order.filter(|h: Name| self.hosts[h].groups.len() == 0)
    }

    /// The inventory with every orphan host in `ungrouped`.
    pub open spec fn reconcile_ungrouped(self) -> InvView {
        let v = self.groups[UNGROUPED@];
        self.with_group(
            UNGROUPED@,
            GroupView { hosts: with_names(v.hosts, self.orphan_hosts()), ..v },
        )
    }

    /// The hosts of `g` and of every group below it, each once, in the order of the walk.
    pub open spec fn group_all_hosts(self, g: Name) -> Seq<Name> {
        self.hosts_of(walk(self.children(), seq![g], Seq::empty()))
    }

    /// The hosts of some groups, each once, in order of first occurrence.
    pub open spec fn hosts_of(self, gs: Seq<Name>) -> Seq<Name>
        decreases gs.len(),
    {
        if gs.len() == 0 {
            Seq::empty()
        } else if self.groups.dom().contains(gs.last()) {
            with_names(self.hosts_of(gs.drop_last()), self.groups[gs.last()].hosts)
        } else {
            self.hosts_of(gs.drop_last())
        }
    }

    /// Where the search for a host's groups starts: its own groups (`ungrouped` where it
    /// has none), and `all`.
    pub open spec fn group_seeds(self, h: Name) -> Seq<Name> {
        let own = if !self.hosts.dom().contains(h) {
            Seq::empty()
        } else if self.hosts[h].groups.len() == 0 {
            seq![UNGROUPED@]
        } else {
            self.hosts[h].groups
        };
        own.push(ALL@)
    }

    /// The groups a host belongs to, directly or through their ancestors.
    pub open spec fn host_groups(self, h: Name) -> Seq<Name> {
        walk(self.parents(), self.group_seeds(h), Seq::empty())
    }
}

/// The name of the variable that sets a group's priority.
pub const PRIORITY_VAR: &'static str = "ansible_group_priority";

/// The priority that a value reads as: an integer, or the text of one.
pub open spec fn priority_of(x: ValueView) -> Option<i64> {
    match x {
        ValueView::Text(t) => parse_i64_spec(trim(t)),
        _ => as_i64(x),
    }
}

/// The priority that a value reads as.
fn read_priority(x: &Value) -> (r: Option<i64>)
    ensures
        r == priority_of(x@),
{
    match x {
        Value::Text(t) => {
            let trimmed = trim_text(t.as_str());
            parse_i64(trimmed.as_str())
        },
        _ => x.to_i64(),
    }
}

/// A list with `n` in it: unchanged where it is there already, else at the end.
pub open spec fn with_name(s: Seq<Name>, n: Name) -> Seq<Name> {
    if s.contains(n) {
        s
    } else {
        s.push(n)
    }
}

/// A list with each of `ns` in it.
pub open spec fn with_names(s: Seq<Name>, ns: Seq<Name>) -> Seq<Name>
    decreases ns.len(),
{
    if ns.len() == 0 {
        s
    } else {
        with_name(with_names(s, ns.drop_last()), ns.last())
    }
}

/// A new group: no hosts, no links, no variables, depth 0 and priority 1.
pub open spec fn new_group(g: Name) -> GroupView {
    GroupView {
        name: g,
        depth: 0,
        priority: 1,
        hosts: Seq::empty(),
        children: Seq::empty(),
        parents: Seq::empty(),
        vars: Seq::empty(),
        file_vars: Seq::empty(),
    }
}

/// A new host: no variables and no groups.
pub open spec fn new_host(h: Name) -> HostView {
    HostView { name: h, vars: Seq::empty(), file_vars: Seq::empty(), groups: Seq::empty() }
}

/// The new inventory: `all`, with `ungrouped` below it.
pub open spec fn new_inventory() -> InvView {
    InvView {
        hosts: Map::empty(),
        host_order: Seq::empty(),
        groups: map![
            ALL@ => (GroupView { children: seq![UNGROUPED@], ..new_group(ALL@) }),
            UNGROUPED@ => (GroupView { parents: seq![ALL@], depth: 1, ..new_group(UNGROUPED@) }),
        ],
        group_order: seq![ALL@, UNGROUPED@],
    }
}

// ---------------------------------------------------------------------------------------
// Depths
// ---------------------------------------------------------------------------------------

/// How deep the groups lie.
pub open spec fn depths(gs: Map<Name, GroupView>) -> Depths {
    gs.map_values(|g: GroupView| g.depth)
}

/// The links to children.
pub open spec fn child_links(gs: Map<Name, GroupView>) -> Edges {
    gs.map_values(|g: GroupView| g.children)
}

/// The groups at these depths.
pub open spec fn at_depths(gs: Map<Name, GroupView>, d: Depths) -> Map<Name, GroupView> {
    Map::new(|g: Name| gs.dom().contains(g), |g: Name| GroupView { depth: d[g], ..gs[g] })
}

/// The groups after `c` was linked under `p`: `c` is at least one below `p`, and where
/// that moved `c`, what is below it follows.
pub open spec fn deepen(gs: Map<Name, GroupView>, p: Name, c: Name) -> Map<Name, GroupView> {
    let d = below(gs[p].depth);
    if gs[c].depth >= d {
        gs
    } else {
        at_depths(gs, moved(child_links(gs), depths(gs).insert(c, d), c))
    }
}

/// `b` is `a` with some depths larger, at most `u32::MAX`, and nothing else changed.
pub open spec fn deeper(a: Map<Name, GroupView>, b: Map<Name, GroupView>) -> bool {
    &&& a.dom() == b.dom()
    &&& forall|g: Name| #[trigger]
        a.dom().contains(g) ==> b[g] == (GroupView { depth: b[g].depth, ..a[g] }) && a[g].depth
            <= b[g].depth && (a[g].depth <= u32::MAX ==> b[g].depth <= u32::MAX)
}

/// Groups at their own depths, and at others in turn.
proof fn lemma_at_depths(gs: Map<Name, GroupView>, d: Depths, e: Depths)
    requires
        d.dom() == gs.dom(),
    ensures
        at_depths(gs, depths(gs)) == gs,
        at_depths(at_depths(gs, d), e) == at_depths(gs, e),
        depths(at_depths(gs, d)) == d,
        child_links(at_depths(gs, d)) == child_links(gs),
        at_depths(gs, d).dom() == gs.dom(),
{
    assert(at_depths(gs, depths(gs)) =~= gs);
    assert(at_depths(at_depths(gs, d), e) =~= at_depths(gs, e));
    assert(depths(at_depths(gs, d)) =~= d);
    assert(child_links(at_depths(gs, d)) =~= child_links(gs));
    assert(at_depths(gs, d).dom() =~= gs.dom());
}

/// Depths that only grow change nothing else.
proof fn lemma_only_deeper(gs: Map<Name, GroupView>, e: Depths, open: Set<Name>)
    requires
        only_deeper(depths(gs), e, open),
    ensures
        deeper(gs, at_depths(gs, e)),
{
    assert(at_depths(gs, e).dom() =~= gs.dom());
    assert forall|g: Name| #[trigger] gs.dom().contains(g) implies gs[g].depth <= e[g] && (
    gs[g].depth <= u32::MAX ==> e[g] <= u32::MAX) by {
        assert(depths(gs).dom().contains(g));
    }
}

/// Moving groups down keeps an inventory well formed.
proof fn lemma_deeper_wf(j: InvView, k: InvView)
    requires
        j.wf(),
        k == (InvView { groups: k.groups, ..j }),
        deeper(j.groups, k.groups),
    ensures
        k.wf(),
{
    assert forall|h: Name| #[trigger] k.hosts.dom().contains(h) implies k.host_wf(h) by {
        assert(j.host_wf(h));
        lemma_within_contains(j.hosts[h].groups, j.groups.dom());
    }
    assert forall|q: Name| #[trigger] k.groups.dom().contains(q) implies k.group_wf(q) by {
        assert(j.group_wf(q));
        lemma_within_contains(j.groups[q].children, j.groups.dom());
        lemma_within_contains(j.groups[q].parents, j.groups.dom());
    }
}

// ---------------------------------------------------------------------------------------
// The operations
// ---------------------------------------------------------------------------------------

/// The two special groups have different names, and both names are safe.
pub proof fn lemma_special_names()
    ensures
        ALL@ != UNGROUPED@,
        safe_name(ALL@) == ALL@,
        safe_name(UNGROUPED@) == UNGROUPED@,
{
    reveal_strlit("all");
    reveal_strlit("ungrouped");
    lemma_safe_name_fixed(ALL@);
    lemma_safe_name_fixed(UNGROUPED@);
}

/// Replacing or adding an entry of the map of groups.
proof fn lemma_view_group(a: InventoryData, b: InventoryData, k: Name, g: Group)
    requires
        group_entries(b.groups) == put(group_entries(a.groups), k, g),
        b.hosts == a.hosts,
    ensures
        b@ == a@.with_group(k, g@),
{
    let s = group_entries(a.groups);
    lemma_pos(s, k);
    assert forall|q: Name| true implies #[trigger] holds(put(s, k, g), q) == (q == k || holds(s, q))
        && get(put(s, k, g), q) == (if q == k {
        Some(g)
    } else {
        get(s, q)
    }) by {
        lemma_put_get(s, k, g, q);
    }
    assert(b@.groups =~= a@.with_group(k, g@).groups);
    assert(b@.group_order =~= a@.with_group(k, g@).group_order);
    assert(b@.hosts =~= a@.hosts);
}

/// Replacing or adding an entry of the map of hosts.
proof fn lemma_view_host(a: InventoryData, b: InventoryData, k: Name, h: Host)
    requires
        host_entries(b.hosts) == put(host_entries(a.hosts), k, h),
        b.groups == a.groups,
    ensures
        b@ == a@.with_host(k, h@),
{
    let s = host_entries(a.hosts);
    lemma_pos(s, k);
    assert forall|q: Name| true implies #[trigger] holds(put(s, k, h), q) == (q == k || holds(s, q))
        && get(put(s, k, h), q) == (if q == k {
        Some(h)
    } else {
        get(s, q)
    }) by {
        lemma_put_get(s, k, h, q);
    }
    assert(b@.hosts =~= a@.with_host(k, h@).hosts);
    assert(b@.host_order =~= a@.with_host(k, h@).host_order);
    assert(b@.groups =~= a@.groups);
}

impl Host {
    /// A host without variables or groups.
    fn new(name: &str) -> (r: Host)
        ensures
            r@ == new_host(name@),
    {
        let r = Host {
            name: name.to_owned(),
            vars: VarMap::new(),
            file_vars: VarMap::new(),
            groups: Vec::new(),
        };
        assert(r@ =~= new_host(name@));
        r
    }
}

impl Group {
    /// A group without hosts, links or variables.
    fn new(name: &str) -> (r: Group)
        ensures
            r@ == new_group(name@),
    {
        let r = Group {
            name: name.to_owned(),
            depth: 0,
            priority: 1,
            hosts: Vec::new(),
            children: Vec::new(),
            parents: Vec::new(),
            vars: VarMap::new(),
            file_vars: VarMap::new(),
        };
        assert(r@ =~= new_group(name@));
        r
    }
}

/// Appends a name to a list that lacks it.
fn push_new(v: &mut Vec<String>, n: &str)
    ensures
        names(final(v)@) == with_name(names(old(v)@), n@),
{
    if !list_has(v, n) {
        v.push(n.to_owned());
        proof {
            let w = v@.drop_last();
            assert(w.push(v@.last()) =~= v@);
            lemma_names_push(w, v@.last());
        }
    }
}

impl InventoryData {
    /// The group of a name.
    pub fn group(&self, name: &str) -> (r: Option<&Group>)
        ensures
            r is Some <==> self@.groups.dom().contains(name@),
            r matches Some(g) ==> g@ == self@.groups[name@],
    {
        groups_get(&self.groups, name)
    }

    /// The host of a name.
    pub fn host(&self, name: &str) -> (r: Option<&Host>)
        ensures
            r is Some <==> self@.hosts.dom().contains(name@),
            r matches Some(h) ==> h@ == self@.hosts[name@],
    {
        hosts_get(&self.hosts, name)
    }

    /// The names of the hosts, in order.
    pub fn host_names(&self) -> (r: Vec<String>)
        ensures
            names(r@) == self@.host_order,
    {
        let n: usize = hosts_len(&self.hosts);
        let mut out: Vec<String> = Vec::new();
        let mut i: usize = 0;
        while i < n
            invariant
                i <= n == self@.host_order.len(),
                names(out@) =~= self@.host_order.take(i as int),
            decreases n - i,
        {
            match hosts_key_at(&self.hosts, i) {
                Some(k) => {
                    proof {
                        lemma_names_push(out@, *k);
                    }
                    out.push(k.clone());
                },
                None => {},
            }
            i += 1;
        }
        assert(self@.host_order.take(i as int) =~= self@.host_order);
        out
    }

    /// The names of the groups, in order.
    pub fn group_names(&self) -> (r: Vec<String>)
        ensures
            names(r@) == self@.group_order,
    {
        let n: usize = groups_len(&self.groups);
        let mut out: Vec<String> = Vec::new();
        let mut i: usize = 0;
        while i < n
            invariant
                i <= n == self@.group_order.len(),
                names(out@) =~= self@.group_order.take(i as int),
            decreases n - i,
        {
            match groups_key_at(&self.groups, i) {
                Some(k) => {
                    proof {
                        lemma_names_push(out@, *k);
                    }
                    out.push(k.clone());
                },
                None => {},
            }
            i += 1;
        }
        assert(self@.group_order.take(i as int) =~= self@.group_order);
        out
    }

    /// Mutable access to a host.
    pub fn host_mut(&mut self, name: &str) -> (r: &mut Host)
        requires
            old(self)@.hosts.dom().contains(name@),
        ensures
            (*r)@ == old(self)@.hosts[name@],
            final(self)@ == old(self)@.with_host(name@, (*final(r))@),
    {
        proof {
            let before = *self;
            assert forall|b: InventoryData, h: Host|
                #![trigger host_entries(b.hosts), h@]
                host_entries(b.hosts) == put(host_entries(before.hosts), name@, h) && b.groups
                    == before.groups implies b@ == before@.with_host(name@, h@) by {
                lemma_view_host(before, b, name@, h);
            }
        }
        match hosts_get_mut(&mut self.hosts, name) {
            Some(h) => h,
            None => vstd::pervasive::unreached(),
        }
    }

    /// Mutable access to a group.
    pub fn group_mut(&mut self, name: &str) -> (r: &mut Group)
        requires
            old(self)@.groups.dom().contains(name@),
        ensures
            (*r)@ == old(self)@.groups[name@],
            final(self)@ == old(self)@.with_group(name@, (*final(r))@),
    {
        proof {
            let before = *self;
            assert forall|b: InventoryData, g: Group|
                #![trigger group_entries(b.groups), g@]
                group_entries(b.groups) == put(group_entries(before.groups), name@, g) && b.hosts
                    == before.hosts implies b@ == before@.with_group(name@, g@) by {
                lemma_view_group(before, b, name@, g);
            }
        }
        match groups_get_mut(&mut self.groups, name) {
            Some(g) => g,
            None => vstd::pervasive::unreached(),
        }
    }

    /// A new inventory: `all`, with `ungrouped` below it.
    pub fn new() -> (r: InventoryData)
        ensures
            r@ == new_inventory(),
            r@.wf(),
    {
        let mut inv = InventoryData { hosts: hosts_new(), groups: groups_new() };
        let ghost a = inv;
        let mut all = Group::new(ALL);
        all.children.push(UNGROUPED.to_owned());
        let mut rest = Group::new(UNGROUPED);
        rest.parents.push(ALL.to_owned());
        rest.depth = 1;
        let ghost (x, y) = (all, rest);
        groups_insert(&mut inv.groups, ALL.to_owned(), all);
        let ghost b = inv;
        groups_insert(&mut inv.groups, UNGROUPED.to_owned(), rest);
        proof {
            lemma_special_names();
            lemma_view_group(a, b, ALL@, x);
            lemma_view_group(b, inv, UNGROUPED@, y);
            assert(x@.children =~= seq![UNGROUPED@]);
            assert(y@.parents =~= seq![ALL@]);
            assert(inv@.groups =~= new_inventory().groups);
            assert(inv@.hosts =~= new_inventory().hosts);
            assert(inv@.group_order =~= new_inventory().group_order);
            assert(inv@.host_order =~= new_inventory().host_order);
            lemma_new_wf();
        }
        inv
    }

    /// Makes sure that a group exists, under the safe form of its name, and returns that.
    pub fn add_group(&mut self, name: &str) -> (r: String)
        requires
            old(self)@.wf(),
        ensures
            r@ == safe_name(name@),
            final(self)@ == old(self)@.add_group(name@),
            final(self)@.wf(),
            final(self)@.groups.dom().contains(r@),
    {
        let ghost before = *self;
        let safe = to_safe_group_name(name);
        if groups_get(&self.groups, safe.as_str()).is_none() {
            let g = Group::new(safe.as_str());
            groups_insert(&mut self.groups, safe.clone(), g);
            proof {
                lemma_view_group(before, *self, safe@, g);
                lemma_add_group_wf(before@, name@);
            }
        }
        safe
    }

    /// Makes sure that a host exists.
    pub fn add_host(&mut self, name: &str)
        requires
            old(self)@.wf(),
        ensures
            final(self)@ == old(self)@.add_host(name@),
            final(self)@.wf(),
            final(self)@.hosts.dom().contains(name@),
    {
        let ghost before = *self;
        if hosts_get(&self.hosts, name).is_none() {
            let h = Host::new(name);
            hosts_insert(&mut self.hosts, name.to_owned(), h);
            proof {
                lemma_view_host(before, *self, name@, h);
                lemma_add_host_wf(before@, name@);
            }
        }
    }

    /// Adds a host to a group; both must exist. Both sides record it, except that a host
    /// does not list `all` and `ungrouped`.
    pub fn add_host_to_group(&mut self, host: &str, group: &str)
        requires
            old(self)@.wf(),
            old(self)@.hosts.dom().contains(host@),
            old(self)@.groups.dom().contains(group@),
        ensures
            final(self)@ == old(self)@.add_host_to_group(host@, group@),
            final(self)@.wf(),
    {
        let ghost before = self@;
        let g = self.group_mut(group);
        push_new(&mut g.hosts, host);
        if !same(group, ALL) && !same(group, UNGROUPED) {
            let h = self.host_mut(host);
            push_new(&mut h.groups, group);
        }
        proof {
            lemma_add_host_to_group_wf(before, host@, group@);
        }
    }

    /// Sets one variable of a group. `ansible_group_priority` sets the group's priority
    /// where it reads as an integer, and is never stored.
    pub fn set_group_var(&mut self, group: &str, key: &str, value: Value)
        requires
            old(self)@.wf(),
            old(self)@.groups.dom().contains(group@),
        ensures
            final(self)@ == old(self)@.set_group_var(group@, key@, value@),
            final(self)@.wf(),
    {
        let ghost before = self@;
        if same(key, PRIORITY_VAR) {
            match read_priority(&value) {
                Some(p) => {
                    let g = self.group_mut(group);
                    g.priority = p;
                },
                None => {},
            }
        } else {
            let g = self.group_mut(group);
            g.vars.insert(key.to_owned(), value);
        }
        proof {
            let v = before.groups[group@];
            lemma_group_data_wf(before, group@, self@.groups[group@]);
            assert(before.with_group(group@, v) =~= before);
        }
    }

    /// Sets one variable of a host.
    pub fn set_host_var(&mut self, host: &str, key: &str, value: Value)
        requires
            old(self)@.wf(),
            old(self)@.hosts.dom().contains(host@),
        ensures
            final(self)@ == old(self)@.set_host_var(host@, key@, value@),
            final(self)@.wf(),
    {
        let ghost before = self@;
        let h = self.host_mut(host);
        h.vars.insert(key.to_owned(), value);
        proof {
            lemma_host_data_wf(before, host@, self@.hosts[host@]);
        }
    }

    /// Links `child` under `parent` and updates the depths of `child` and of what is below
    /// it. Both groups must exist. A group is never linked under itself.
    pub fn add_child(&mut self, parent: &str, child: &str)
        requires
            old(self)@.wf(),
            old(self)@.groups.dom().contains(parent@),
            old(self)@.groups.dom().contains(child@),
        ensures
            final(self)@ == old(self)@.add_child(parent@, child@),
            final(self)@.wf(),
    {
        if same(parent, child) {
            return;
        }
        let ghost before = self@;
        let p = self.group_mut(parent);
        push_new(&mut p.children, child);
        let c = self.group_mut(child);
        push_new(&mut c.parents, parent);
        proof {
            lemma_link_wf(before, parent@, child@);
        }
        self.recalc_depth(parent, child);
    }

    /// Moves `child` to one below `parent` where it is above that, and moves what is below
    /// it along.
    fn recalc_depth(&mut self, parent: &str, child: &str)
        requires
            old(self)@.wf(),
            old(self)@.groups.dom().contains(parent@),
            old(self)@.groups.dom().contains(child@),
        ensures
            final(self)@.groups == deepen(old(self)@.groups, parent@, child@),
            final(self)@ == (InvView { groups: final(self)@.groups, ..old(self)@ }),
            final(self)@.wf(),
    {
        let ghost before = self@;
        let new_depth: u32 = self.group_mut(parent).depth.saturating_add(1);
        assert(before.with_group(parent@, before.groups[parent@]) =~= before);
        let c = self.group_mut(child);
        if c.depth >= new_depth {
            assert(self@ =~= before);
            return;
        }
        c.depth = new_depth;
        let ghost start = self@;
        let ghost d = depths(before.groups).insert(child@, new_depth as nat);
        proof {
            lemma_group_data_wf(before, child@, start.groups[child@]);
            assert(depths(start.groups) =~= d);
            assert(child_links(start.groups) =~= child_links(before.groups));
            assert(start.groups =~= at_depths(before.groups, d));
            assert(d.dom() =~= before.groups.dom());
        }
        let mut open = NameSet::new();
        let mut done = NameSet::new();
        open.insert(child.to_owned());
        assert(open@ =~= set![child@]);
        proof {
            lemma_reaches_self(child_links(start.groups), child@);
        }
        if self.no_cycle_below(child, &mut open, &mut done) {
            proof {
                lemma_closed_no_cycle(child_links(start.groups), done@, child@);
            }
            self.sink(child, &mut open);
        } else {
            proof {
                lemma_cycle_found(child_links(start.groups), child@);
            }
            self.push_down(child);
        }
        proof {
            lemma_at_depths(
                before.groups,
                d,
                moved(child_links(before.groups), d, child@),
            );
        }
    }

    /// Whether no group that can be reached from `group` lies on a cycle of links. `open` are
    /// the group and those on the way to it, `done` are groups that were found to be on none.
    fn no_cycle_below(&self, group: &str, open: &mut NameSet, done: &mut NameSet) -> (r: bool)
        requires
            self@.wf(),
            self@.groups.dom().contains(group@),
            old(open)@.contains(group@),
            old(open)@.disjoint(old(done)@),
            forall|o: Name| #[trigger]
                old(open)@.contains(o) ==> reaches(child_links(self@.groups), o, group@),
            closed(child_links(self@.groups), old(done)@),
            no_cycle(child_links(self@.groups), old(done)@),
        ensures
            r ==> final(open)@ == old(open)@ && old(done)@.subset_of(final(done)@)
                && final(done)@.contains(group@) && old(open)@.remove(group@).disjoint(final(done)@)
                && closed(child_links(self@.groups), final(done)@) && no_cycle(
                child_links(self@.groups),
                final(done)@,
            ),
            !r ==> cycle_below(child_links(self@.groups), group@),
        decreases self@.groups.dom().difference(old(open)@).len(),
    {
        let ghost gs = self@.groups;
        let ghost ch = child_links(gs);
        let ghost way = open@;
        let ghost start = done@;
        proof {
            lemma_wf_finite(self@);
            assert(self@.group_wf(group@));
            assert(ch.dom() =~= gs.dom());
            lemma_reaches_self(ch, group@);
        }
        let grp = match groups_get(&self.groups, group) {
            Some(grp) => grp,
            None => vstd::pervasive::unreached(),
        };
        let ghost cs = gs[group@].children;
        let mut i: usize = 0;
        while i < grp.children.len()
            invariant
                i <= grp.children.len(),
                names(grp.children@) == cs,
                cs == steps(ch, group@),
                within(cs, gs.dom()),
                self@.wf(),
                self@.groups == gs,
                ch == child_links(gs),
                ch.dom() == gs.dom(),
                gs.dom().finite(),
                gs.dom().contains(group@),
                way == old(open)@,
                way.contains(group@),
                open@ == way,
                start.subset_of(done@),
                way.disjoint(done@),
                forall|o: Name| #[trigger] way.contains(o) ==> reaches(ch, o, group@),
                closed(ch, done@),
                no_cycle(ch, done@),
                forall|k: int| 0 <= k < i ==> done@.contains(#[trigger] cs[k]),
            decreases grp.children.len() - i,
        {
            let ghost kids = names(grp.children@);
            let ghost x = cs[i as int];
            proof {
                assert(kids[i as int] == grp.children@[i as int]@);
                assert(gs.dom().contains(x));
                assert(steps(ch, group@).contains(x));
                lemma_reaches_self(ch, group@);
            }
            if open.contains(grp.children[i].as_str()) {
                assert(on_cycle(ch, group@, x));
                return false;
            }
            if !done.contains(grp.children[i].as_str()) {
                proof {
                    lemma_open(gs.dom(), way, x);
                    assert forall|o: Name| #[trigger] way.insert(x).contains(o) implies reaches(
                        ch,
                        o,
                        x,
                    ) by {
                        if o == x {
                            lemma_reaches_self(ch, x);
                        } else {
                            lemma_reaches_step(ch, o, group@, x);
                        }
                    }
                }
                open.insert(grp.children[i].clone());
                if !self.no_cycle_below(grp.children[i].as_str(), open, done) {
                    proof {
                        lemma_cycle_below(ch, group@, x);
                    }
                    return false;
                }
                open.remove(grp.children[i].as_str());
                assert(way.insert(x).remove(x) =~= way);
            }
            i += 1;
        }
        proof {
            lemma_done(ch, done@, group@);
        }
        done.insert(group.to_owned());
        true
    }

    /// Pushes what is below a group down, each group once.
    fn push_down(&mut self, group: &str)
        requires
            old(self)@.wf(),
            old(self)@.groups.dom().contains(group@),
        ensures
            final(self)@ == (InvView {
                groups: at_depths(
                    old(self)@.groups,
                    pushed(
                        child_links(old(self)@.groups),
                        depths(old(self)@.groups),
                        seq![group@],
                        Seq::empty(),
                    ),
                ),
                ..old(self)@
            }),
            final(self)@.wf(),
    {
        let ghost before = self@;
        let ghost gs = before.groups;
        let ghost ch = child_links(gs);
        let ghost end = pushed(ch, depths(gs), seq![group@], Seq::empty());
        let ghost mut d = depths(gs);
        let ghost mut done: Seq<Name> = Seq::empty();
        proof {
            lemma_wf_finite(before);
            assert(ch.dom() =~= gs.dom());
            assert(d.dom() =~= gs.dom());
            lemma_at_depths(gs, d, d);
        }
        let mut seen = NameSet::new();
        let mut stack: Vec<String> = Vec::new();
        stack.push(group.to_owned());
        assert(names(stack@) =~= seq![group@]);
        assert(seen@ =~= done.to_set());
        while stack.len() > 0
            invariant
                before.wf(),
                before.groups == gs,
                before == old(self)@,
                ch == child_links(gs),
                ch.dom() == gs.dom(),
                gs.dom().finite(),
                d.dom() == gs.dom(),
                self@ == (InvView { groups: at_depths(gs, d), ..before }),
                self@.wf(),
                seen@ == done.to_set(),
                within(names(stack@), gs.dom()),
                pushed(ch, d, names(stack@), done) == end,
            decreases gs.dom().difference(done.to_set()).len(), stack.len(),
        {
            let ghost stack0 = names(stack@);
            let ghost now = d;
            let g = stack.pop().unwrap();
            proof {
                assert(names(stack@) =~= stack0.drop_last());
                assert(g@ == stack0.last());
                assert(gs.dom().contains(g@));
            }
            if seen.contains(g.as_str()) {
                continue;
            }
            proof {
                lemma_unseen_shrinks(gs.dom(), done, g@);
                lemma_push_set(done, g@);
                lemma_at_depths(gs, d, d);
                assert(self@.group_wf(g@));
                assert(before.group_wf(g@));
            }
            seen.insert(g.clone());
            let grp = match groups_get(&self.groups, g.as_str()) {
                Some(grp) => grp,
                None => vstd::pervasive::unreached(),
            };
            let want: u32 = grp.depth.saturating_add(1);
            let children = copy_list(&grp.children);
            let ghost cs = gs[g@].children;
            let mut i: usize = 0;
            assert(cs.take(0) =~= Seq::empty());
            while i < children.len()
                invariant
                    i <= children.len(),
                    names(children@) == cs,
                    within(cs, gs.dom()),
                    within(names(stack@), gs.dom()),
                    before.wf(),
                    before.groups == gs,
                    d.dom() == gs.dom(),
                    self@ == (InvView { groups: at_depths(gs, d), ..before }),
                    self@.wf(),
                    (d, names(stack@)) == push_children(
                        now,
                        cs.take(i as int),
                        want as nat,
                        stack0.drop_last(),
                    ),
                decreases children.len() - i,
            {
                let ghost here = self@;
                let ghost kids = names(children@);
                let ghost x = cs[i as int];
                proof {
                    assert(kids[i as int] == children@[i as int]@);
                    assert(cs.take(i + 1).drop_last() =~= cs.take(i as int));
                    assert(gs.dom().contains(x));
                    lemma_at_depths(gs, d, d);
                }
                let c = self.group_mut(children[i].as_str());
                if c.depth < want {
                    c.depth = want;
                    proof {
                        let d1 = d.insert(x, want as nat);
                        assert(d1.dom() =~= gs.dom());
                        lemma_names_push(stack@, children@[i as int]);
                        lemma_group_data_wf(here, x, self@.groups[x]);
                        assert(self@.groups =~= at_depths(gs, d1));
                        assert(self@ =~= (InvView { groups: at_depths(gs, d1), ..before }));
                        d = d1;
                    }
                    stack.push(children[i].clone());
                } else {
                    assert(self@ =~= here);
                }
                i += 1;
            }
            proof {
                assert(cs.take(i as int) =~= cs);
                assert(ch[g@] == cs);
                done = done.push(g@);
            }
        }
    }

    /// Moves everything below a group down to lie below what it is linked under. `open` are
    /// the group and those on the way to it.
    fn sink(&mut self, group: &str, open: &mut NameSet)
        requires
            old(self)@.wf(),
            old(self)@.groups.dom().contains(group@),
            old(open)@.contains(group@),
        ensures
            final(self)@ == (InvView {
                groups: at_depths(
                    old(self)@.groups,
                    sunk(
                        child_links(old(self)@.groups),
                        depths(old(self)@.groups),
                        group@,
                        old(open)@,
                    ),
                ),
                ..old(self)@
            }),
            final(self)@.wf(),
            final(open)@ == old(open)@,
        decreases old(self)@.groups.dom().difference(old(open)@).len(),
    {
        let ghost before = self@;
        let ghost gs = before.groups;
        let ghost ch = child_links(gs);
        let ghost way = open@;
        let ghost end = sunk(ch, depths(gs), group@, way);
        proof {
            lemma_wf_finite(before);
            assert(ch.dom() =~= gs.dom());
            assert(depths(gs).dom() =~= gs.dom());
            assert(before.group_wf(group@));
            lemma_at_depths(gs, depths(gs), depths(gs));
        }
        let grp = match groups_get(&self.groups, group) {
            Some(grp) => grp,
            None => vstd::pervasive::unreached(),
        };
        let want: u32 = grp.depth.saturating_add(1);
        let children = copy_list(&grp.children);
        let ghost cs = gs[group@].children;
        let ghost mut d = depths(gs);
        let mut i: usize = 0;
        assert(cs.skip(0) =~= cs);
        while i < children.len()
            invariant
                i <= children.len(),
                names(children@) == cs,
                cs == steps(ch, group@),
                within(cs, gs.dom()),
                before.groups == gs,
                before.wf(),
                ch == child_links(gs),
                ch.dom() == gs.dom(),
                gs.dom().finite(),
                d.dom() == gs.dom(),
                gs.dom().contains(group@),
                way.contains(group@),
                open@ == way,
                before == old(self)@,
                way == old(open)@,
                d[group@] == gs[group@].depth,
                want == below(gs[group@].depth),
                d[group@] <= u32::MAX,
                self@ == (InvView { groups: at_depths(gs, d), ..before }),
                self@.wf(),
                sunk_children(ch, d, group@, cs.skip(i as int), way) == end,
            decreases children.len() - i,
        {
            let ghost kids = names(children@);
            let ghost x = cs[i as int];
            let ghost here = self@;
            proof {
                assert(kids[i as int] == children@[i as int]@);
                assert(gs.dom().contains(x));
                assert(cs.skip(i as int)[0] == x);
                assert(cs.skip(i as int).drop_first() =~= cs.skip(i + 1));
                lemma_at_depths(gs, d, d);
            }
            if !open.contains(children[i].as_str()) {
                let c = self.group_mut(children[i].as_str());
                if c.depth < want {
                    c.depth = want;
                    let ghost d1 = d.insert(x, want as nat);
                    let ghost mid = self@;
                    proof {
                        assert(d1.dom() =~= gs.dom());
                        lemma_group_data_wf(here, x, mid.groups[x]);
                        assert(mid.groups =~= at_depths(gs, d1));
                        assert(mid =~= (InvView { groups: at_depths(gs, d1), ..before }));
                        lemma_at_depths(gs, d1, d1);
                        lemma_open(gs.dom(), way, x);
                    }
                    open.insert(children[i].clone());
                    self.sink(children[i].as_str(), open);
                    open.remove(children[i].as_str());
                    proof {
                        let e = sunk(ch, d1, x, way.insert(x));
                        lemma_sunk(ch, d1, x, way.insert(x));
                        lemma_at_depths(gs, d1, e);
                        assert(way.insert(x).remove(x) =~= way);
                        assert(way.insert(x).contains(group@));
                        d = e;
                    }
                } else {
                    assert(self@ =~= here);
                }
            }
            i += 1;
        }
        assert(cs.skip(i as int) =~= Seq::empty());
    }

    /// Makes every group that has no parent, other than `all`, a child of `all`.
    pub fn reconcile_all_children(&mut self)
        requires
            old(self)@.wf(),
        ensures
            final(self)@ == old(self)@.adopt(old(self)@.orphan_groups()),
            final(self)@.wf(),
    {
        let ghost before = self@;
        let ghost pred = |g: Name| g != ALL@ && before.groups[g].parents.len() == 0;
        let all = self.group_names();
        let mut orphans: Vec<String> = Vec::new();
        let mut i: usize = 0;
        while i < all.len()
            invariant
                i <= all.len(),
                self@ == before,
                before.wf(),
                names(all@) == before.group_order,
                pred == (|g: Name| g != ALL@ && before.groups[g].parents.len() == 0),
                names(orphans@) == before.group_order.take(i as int).filter(pred),
            decreases all.len() - i,
        {
            proof {
                reveal(Seq::filter);
                assert(names(all@)[i as int] == all@[i as int]@);
                let t = before.group_order.take(i + 1);
                assert(t.drop_last() =~= before.group_order.take(i as int));
                assert(before.group_order.contains(before.group_order[i as int]));
                assert(before.groups.dom().contains(all@[i as int]@));
                lemma_names_push(orphans@, all@[i as int]);
            }
            let name = &all[i];
            match groups_get(&self.groups, name.as_str()) {
                Some(g) => if !same(name.as_str(), ALL) && g.parents.len() == 0 {
                    orphans.push(name.clone());
                },
                None => {},
            }
            i += 1;
        }
        proof {
            assert(before.group_order.take(i as int) =~= before.group_order);
            assert(names(orphans@) == before.orphan_groups());
            lemma_filter_names(before.group_order, pred);
            let gs = before.orphan_groups();
            assert forall|k: int| 0 <= k < gs.len() implies before.groups.dom().contains(
                #[trigger] gs[k],
            ) by {
                assert(gs.contains(gs[k]));
                assert(before.group_order.contains(gs[k]));
            }
        }
        let ghost gs = before.orphan_groups();
        let mut j: usize = 0;
        while j < orphans.len()
            invariant
                j <= orphans.len(),
                names(orphans@) == gs,
                before.wf(),
                within(gs, before.groups.dom()),
                self@.wf(),
                self@.groups.dom() == before.groups.dom(),
                self@ == before.adopt(gs.take(j as int)),
            decreases orphans.len() - j,
        {
            proof {
                assert(names(orphans@)[j as int] == orphans@[j as int]@);
                assert(gs.take(j + 1).drop_last() =~= gs.take(j as int));
                lemma_add_child_wf(self@, ALL@, gs[j as int]);
            }
            self.add_child(ALL, orphans[j].as_str());
            j += 1;
        }
        assert(gs.take(j as int) =~= gs);
    }

    /// Puts every host that is in no explicit group into `ungrouped`.
    pub fn reconcile_ungrouped(&mut self)
        requires
            old(self)@.wf(),
        ensures
            final(self)@ == old(self)@.reconcile_ungrouped(),
            final(self)@.wf(),
    {
        let ghost before = self@;
        let ghost pred = |h: Name| before.hosts[h].groups.len() == 0;
        let ghost v = before.groups[UNGROUPED@];
        let ghost hs = before.orphan_hosts();
        let all = self.host_names();
        assert(before.with_group(
            UNGROUPED@,
            GroupView { hosts: with_names(v.hosts, Seq::empty()), ..v },
        ) =~= before);
        assert(before.host_order.take(0).filter(pred) =~= Seq::empty()) by {
            reveal(Seq::filter);
        }
        let mut i: usize = 0;
        while i < all.len()
            invariant
                i <= all.len(),
                before.wf(),
                names(all@) == before.host_order,
                v == before.groups[UNGROUPED@],
                pred == (|h: Name| before.hosts[h].groups.len() == 0),
                self@ == before.with_group(
                    UNGROUPED@,
                    GroupView {
                        hosts: with_names(v.hosts, before.host_order.take(i as int).filter(pred)),
                        ..v
                    },
                ),
            decreases all.len() - i,
        {
            let ghost now = self@;
            let ghost t = before.host_order.take(i + 1);
            proof {
                reveal(Seq::filter);
                assert(names(all@)[i as int] == all@[i as int]@);
                assert(t.drop_last() =~= before.host_order.take(i as int));
                assert(t.last() == all@[i as int]@);
                assert(before.host_order.contains(before.host_order[i as int]));
                assert(before.hosts.dom().contains(all@[i as int]@));
            }
            let name = &all[i];
            let orphan = match hosts_get(&self.hosts, name.as_str()) {
                Some(h) => h.groups.len() == 0,
                None => false,
            };
            if orphan {
                let g = self.group_mut(UNGROUPED);
                push_new(&mut g.hosts, name.as_str());
                proof {
                    let f = t.drop_last().filter(pred);
                    assert(t.filter(pred) == f.push(name@));
                    assert(f.push(name@).drop_last() =~= f);
                    assert(self@ =~= before.with_group(
                        UNGROUPED@,
                        GroupView { hosts: with_names(v.hosts, t.filter(pred)), ..v },
                    ));
                }
            }
            i += 1;
        }
        proof {
            assert(before.host_order.take(i as int) =~= before.host_order);
            lemma_reconcile_ungrouped_wf(before);
        }
    }

    /// The hosts of a group and of every group below it, each once.
    pub fn group_all_hosts(&self, group: &str) -> (r: Vec<String>)
        requires
            self@.wf(),
        ensures
            names(r@) == self@.group_all_hosts(group@),
    {
        proof {
            lemma_wf_finite(self@);
        }
        let ghost e = self@.children();
        let mut seen_groups = StringHashSet::new();
        let mut seen_hosts = StringHashSet::new();
        let ghost mut met: Seq<Name> = Seq::empty();
        let mut result: Vec<String> = Vec::new();
        let mut stack: Vec<String> = Vec::new();
        stack.push(group.to_owned());
        assert(names(stack@) =~= seq![group@]);
        assert(seen_groups@ =~= met.to_set());
        assert(names(result@) =~= self@.hosts_of(met));
        assert(seen_hosts@ =~= names(result@).to_set());
        assert(e.dom() =~= self@.groups.dom());
        while stack.len() > 0
            invariant
                self@.wf(),
                e == self@.children(),
                e.dom().finite(),
                e.dom() == self@.groups.dom(),
                seen_groups@ == met.to_set(),
                seen_hosts@ == names(result@).to_set(),
                names(result@) == self@.hosts_of(met),
                walk(e, names(stack@), met) == walk(e, seq![group@], Seq::empty()),
            decreases e.dom().difference(met.to_set()).len(), stack.len(),
        {
            let ghost stack0 = names(stack@);
            let g = stack.pop().unwrap();
            proof {
                assert(names(stack@) =~= stack0.drop_last());
                assert(g@ == stack0.last());
            }
            if seen_groups.contains(g.as_str()) {
                continue;
            }
            let ghost acc = names(result@);
            proof {
                lemma_unseen_shrinks(e.dom(), met, g@);
                lemma_push_set(met, g@);
                assert(met.push(g@).drop_last() =~= met);
                assert(stack0.drop_last() + Seq::empty() =~= stack0.drop_last());
            }
            seen_groups.insert(g.clone());
            match groups_get(&self.groups, g.as_str()) {
                Some(grp) => {
                    let ghost hs = names(grp.hosts@);
                    let mut i: usize = 0;
                    assert(hs.take(0) =~= Seq::empty());
                    while i < grp.hosts.len()
                        invariant
                            i <= grp.hosts.len(),
                            hs == names(grp.hosts@),
                            seen_hosts@ == names(result@).to_set(),
                            names(result@) == with_names(acc, hs.take(i as int)),
                        decreases grp.hosts.len() - i,
                    {
                        let h = &grp.hosts[i];
                        proof {
                            assert(hs[i as int] == h@);
                            assert(hs.take(i + 1).drop_last() =~= hs.take(i as int));
                            lemma_push_set(names(result@), h@);
                            lemma_names_push(result@, *h);
                        }
                        if seen_hosts.insert(h.clone()) {
                            result.push(h.clone());
                        } else {
                            assert(seen_hosts@ =~= names(result@).to_set());
                        }
                        i += 1;
                    }
                    assert(hs.take(i as int) =~= hs);
                    push_all(&mut stack, &grp.children);
                },
                None => {},
            }
            proof {
                met = met.push(g@);
            }
        }
        result
    }

    /// The groups a host belongs to, directly or through their ancestors; always with
    /// `all`.
    pub fn host_groups(&self, host: &str) -> (r: Vec<String>)
        requires
            self@.wf(),
        ensures
            names(r@) == self@.host_groups(host@),
    {
        let ghost seeds = self@.group_seeds(host@);
        let mut stack: Vec<String> = Vec::new();
        match hosts_get(&self.hosts, host) {
            Some(h) => {
                if h.groups.len() == 0 {
                    stack.push(UNGROUPED.to_owned());
                    assert(names(stack@) =~= seq![UNGROUPED@]);
                }
                push_all(&mut stack, &h.groups);
                assert(names(stack@).push(ALL@) =~= seeds);
            },
            None => {},
        }
        stack.push(ALL.to_owned());
        assert(names(stack@) =~= seeds);
        self.with_ancestors(stack)
    }

    /// Some groups and all their ancestors, each once.
    pub fn with_ancestors(&self, groups: Vec<String>) -> (r: Vec<String>)
        requires
            self@.wf(),
        ensures
            names(r@) == walk(self@.parents(), names(groups@), Seq::empty()),
    {
        proof {
            lemma_wf_finite(self@);
        }
        let ghost e = self@.parents();
        let ghost seeds = names(groups@);
        assert(e.dom() =~= self@.groups.dom());
        let mut stack = groups;
        let mut seen = StringHashSet::new();
        let mut result: Vec<String> = Vec::new();
        assert(names(result@) =~= Seq::empty());
        assert(seen@ =~= names(result@).to_set());
        while stack.len() > 0
            invariant
                self@.wf(),
                e == self@.parents(),
                e.dom().finite(),
                e.dom() == self@.groups.dom(),
                seen@ == names(result@).to_set(),
                walk(e, names(stack@), names(result@)) == walk(e, seeds, Seq::empty()),
            decreases e.dom().difference(names(result@).to_set()).len(), stack.len(),
        {
            let ghost stack0 = names(stack@);
            let ghost acc = names(result@);
            let g = stack.pop().unwrap();
            proof {
                assert(names(stack@) =~= stack0.drop_last());
                assert(g@ == stack0.last());
            }
            if seen.contains(g.as_str()) {
                continue;
            }
            proof {
                lemma_unseen_shrinks(e.dom(), acc, g@);
                lemma_push_set(acc, g@);
                lemma_names_push(result@, g);
                assert(stack0.drop_last() + Seq::empty() =~= stack0.drop_last());
            }
            seen.insert(g.clone());
            match groups_get(&self.groups, g.as_str()) {
                Some(grp) => {
                    push_all(&mut stack, &grp.parents);
                },
                None => {},
            }
            result.push(g);
        }
        result
    }
}

impl Host {
    /// A copy of the host.
    pub fn copy(&self) -> (r: Host)
        ensures
            r@ == self@,
    {
        Host {
            name: self.name.clone(),
            vars: self.vars.clone(),
            file_vars: self.file_vars.clone(),
            groups: copy_list(&self.groups),
        }
    }
}

impl Group {
    /// A copy of the group.
    pub fn copy(&self) -> (r: Group)
        ensures
            r@ == self@,
    {
        Group {
            name: self.name.clone(),
            depth: self.depth,
            priority: self.priority,
            hosts: copy_list(&self.hosts),
            children: copy_list(&self.children),
            parents: copy_list(&self.parents),
            vars: self.vars.clone(),
            file_vars: self.file_vars.clone(),
        }
    }
}

/// The first hosts and groups of an inventory.
spec fn first(i: InvView, h: int, g: int) -> InvView {
    InvView {
        hosts: i.hosts.restrict(i.host_order.take(h).to_set()),
        host_order: i.host_order.take(h),
        groups: i.groups.restrict(i.group_order.take(g).to_set()),
        group_order: i.group_order.take(g),
    }
}

/// One item more at the front of an order.
proof fn lemma_take_more(s: Seq<Name>, i: int)
    requires
        0 <= i < s.len(),
        s.no_duplicates(),
    ensures
        s.take(i + 1) == s.take(i).push(s[i]),
        !s.take(i).contains(s[i]),
        s.take(i + 1).to_set() == s.take(i).to_set().insert(s[i]),
{
    assert(s.take(i + 1) =~= s.take(i).push(s[i]));
    lemma_push_set(s.take(i), s[i]);
    if s.take(i).contains(s[i]) {
        let j = choose|j: int| 0 <= j < i && s.take(i)[j] == s[i];
        assert(s[j] == s[i]);
    }
}

/// One host more.
proof fn lemma_first_host(i: InvView, h: int, g: int)
    requires
        i.wf(),
        0 <= h < i.host_order.len(),
    ensures
        first(i, h + 1, g) == first(i, h, g).with_host(
            i.host_order[h],
            i.hosts[i.host_order[h]],
        ),
        i.hosts.dom().contains(i.host_order[h]),
{
    let k = i.host_order[h];
    lemma_take_more(i.host_order, h);
    assert(i.host_order.contains(k));
    assert(first(i, h + 1, g).hosts =~= first(i, h, g).with_host(k, i.hosts[k]).hosts);
}

/// One group more.
proof fn lemma_first_group(i: InvView, h: int, g: int)
    requires
        i.wf(),
        0 <= g < i.group_order.len(),
    ensures
        first(i, h, g + 1) == first(i, h, g).with_group(
            i.group_order[g],
            i.groups[i.group_order[g]],
        ),
        i.groups.dom().contains(i.group_order[g]),
{
    let k = i.group_order[g];
    lemma_take_more(i.group_order, g);
    assert(i.group_order.contains(k));
    assert(first(i, h, g + 1).groups =~= first(i, h, g).with_group(k, i.groups[k]).groups);
}

impl InventoryData {
    /// A copy of the inventory.
    pub fn copy(&self) -> (r: InventoryData)
        requires
            self@.wf(),
        ensures
            r@ == self@,
    {
        let ghost me = self@;
        let mut inv = InventoryData { hosts: hosts_new(), groups: groups_new() };
        proof {
            assert(inv@.hosts =~= first(me, 0, 0).hosts);
            assert(inv@.groups =~= first(me, 0, 0).groups);
            assert(inv@.host_order =~= first(me, 0, 0).host_order);
            assert(inv@.group_order =~= first(me, 0, 0).group_order);
        }
        let hosts = self.host_names();
        let mut i: usize = 0;
        while i < hosts.len()
            invariant
                i <= hosts.len(),
                me == self@,
                me.wf(),
                names(hosts@) == me.host_order,
                inv@ == first(me, i as int, 0),
            decreases hosts.len() - i,
        {
            proof {
                assert(names(hosts@)[i as int] == hosts@[i as int]@);
                lemma_first_host(me, i as int, 0);
            }
            match hosts_get(&self.hosts, hosts[i].as_str()) {
                Some(h) => {
                    let ghost before = inv;
                    let c = h.copy();
                    hosts_insert(&mut inv.hosts, hosts[i].clone(), c);
                    proof {
                        lemma_view_host(before, inv, hosts@[i as int]@, c);
                    }
                },
                None => vstd::pervasive::unreached(),
            }
            i += 1;
        }
        let groups = self.group_names();
        let mut j: usize = 0;
        while j < groups.len()
            invariant
                j <= groups.len(),
                me == self@,
                me.wf(),
                names(groups@) == me.group_order,
                inv@ == first(me, me.host_order.len() as int, j as int),
            decreases groups.len() - j,
        {
            proof {
                assert(names(groups@)[j as int] == groups@[j as int]@);
                lemma_first_group(me, me.host_order.len() as int, j as int);
            }
            match groups_get(&self.groups, groups[j].as_str()) {
                Some(g) => {
                    let ghost before = inv;
                    let c = g.copy();
                    groups_insert(&mut inv.groups, groups[j].clone(), c);
                    proof {
                        lemma_view_group(before, inv, groups@[j as int]@, c);
                    }
                },
                None => vstd::pervasive::unreached(),
            }
            j += 1;
        }
        proof {
            let (m, n) = (me.host_order.len() as int, me.group_order.len() as int);
            assert(me.host_order.take(m) =~= me.host_order);
            assert(me.group_order.take(n) =~= me.group_order);
            assert(first(me, m, n).hosts =~= me.hosts);
            assert(first(me, m, n).groups =~= me.groups);
        }
        inv
    }
}

/// Appends a list of names to another.
fn push_all(v: &mut Vec<String>, more: &Vec<String>)
    ensures
        names(final(v)@) == names(old(v)@) + names(more@),
{
    let ghost before = names(v@);
    let mut i: usize = 0;
    while i < more.len()
        invariant
            i <= more.len(),
            names(v@) =~= before + names(more@).take(i as int),
        decreases more.len() - i,
    {
        proof {
            lemma_names_push(v@, more@[i as int]);
        }
        v.push(more[i].clone());
        i += 1;
    }
    assert(names(more@).take(i as int) =~= names(more@));
}

/// Linking two groups and moving depths keeps an inventory well formed.
pub proof fn lemma_add_child_wf(i: InvView, p: Name, c: Name)
    requires
        i.wf(),
        i.groups.dom().contains(p),
        i.groups.dom().contains(c),
    ensures
        i.add_child(p, c).wf(),
        i.add_child(p, c).groups.dom() == i.groups.dom(),
{
    if p != c {
        lemma_link_wf(i, p, c);
        let j = i.link(p, c);
        lemma_deepen(j, p, c);
        lemma_deeper_wf(j, i.add_child(p, c));
    }
}

/// Linking `c` under `p` makes no depth smaller and changes nothing but depths.
pub proof fn lemma_deepen(i: InvView, p: Name, c: Name)
    requires
        i.wf(),
        i.groups.dom().contains(p),
        i.groups.dom().contains(c),
    ensures
        deeper(i.groups, deepen(i.groups, p, c)),
{
    lemma_wf_finite(i);
    assert(i.group_wf(p));
    assert(i.group_wf(c));
    lemma_deepened(i, p, c);
}

/// What linking `c` under `p` does to the depths, where it moves `c`.
proof fn lemma_deepened(i: InvView, p: Name, c: Name)
    requires
        i.wf(),
        i.groups.dom().contains(p),
        i.groups.dom().contains(c),
    ensures
        deeper(i.groups, deepen(i.groups, p, c)),
        deepen(i.groups, p, c)[c].depth >= below(i.groups[p].depth),
        ({
            let d = depths(i.groups).insert(c, below(i.groups[p].depth));
            &&& d.dom() == i.groups.dom()
            &&& d[c] <= u32::MAX
        }),
{
    let gs = i.groups;
    let ch = child_links(gs);
    let d = depths(gs).insert(c, below(gs[p].depth));
    lemma_wf_finite(i);
    assert(i.group_wf(p));
    assert(i.group_wf(c));
    assert(ch.dom() =~= gs.dom());
    assert(d.dom() =~= gs.dom());
    if gs[c].depth < below(gs[p].depth) {
        lemma_new_depth(i, p, c);
        lemma_moved(ch, d, c);
        let e = moved(ch, d, c);
        assert forall|g: Name| #[trigger] depths(gs).dom().contains(g) implies depths(gs)[g] <= e[g]
            && (depths(gs)[g] <= u32::MAX ==> e[g] <= u32::MAX) by {
            assert(d.dom().contains(g));
        }
        assert(only_deeper(depths(gs), e, Set::empty()));
        lemma_only_deeper(gs, e, Set::empty());
        assert(d.dom().contains(c));
    }
}

/// One below a group is a depth.
proof fn lemma_new_depth(i: InvView, p: Name, c: Name)
    requires
        i.wf(),
        i.groups.dom().contains(p),
    ensures
        bounded(depths(i.groups).insert(c, below(i.groups[p].depth))),
{
    let d = depths(i.groups).insert(c, below(i.groups[p].depth));
    assert(i.group_wf(p));
    assert forall|q: Name| #[trigger] d.dom().contains(q) implies d[q] <= u32::MAX by {
        if q != c {
            assert(i.group_wf(q));
        }
    }
}

/// What `with_names` holds.
pub proof fn lemma_with_names(s: Seq<Name>, ns: Seq<Name>)
    ensures
        forall|x: Name| #[trigger]
            with_names(s, ns).contains(x) <==> (s.contains(x) || ns.contains(x)),
        s.no_duplicates() ==> with_names(s, ns).no_duplicates(),
    decreases ns.len(),
{
    if ns.len() > 0 {
        lemma_with_names(s, ns.drop_last());
        lemma_with_name(with_names(s, ns.drop_last()), ns.last());
        assert forall|x: Name| #[trigger] ns.contains(x) <==> (ns.drop_last().contains(x) || x
            == ns.last()) by {
            if ns.contains(x) {
                let i = choose|i: int| 0 <= i < ns.len() && ns[i] == x;
                if i < ns.len() - 1 {
                    assert(ns.drop_last()[i] == x);
                }
            }
            if ns.drop_last().contains(x) {
                let i = choose|i: int| 0 <= i < ns.len() - 1 && ns.drop_last()[i] == x;
                assert(ns[i] == x);
            }
            if x == ns.last() {
                assert(ns[ns.len() - 1] == x);
            }
        }
    }
}

/// What `filter` keeps.
pub proof fn lemma_filter_names(s: Seq<Name>, pred: spec_fn(Name) -> bool)
    ensures
        forall|x: Name| #[trigger] s.filter(pred).contains(x) <==> (s.contains(x) && pred(x)),
        s.no_duplicates() ==> s.filter(pred).no_duplicates(),
    decreases s.len(),
{
    reveal(Seq::filter);
    if s.len() > 0 {
        let u = s.drop_last();
        lemma_filter_names(u, pred);
        let f = u.filter(pred);
        let n = s.last();
        assert forall|x: Name| #[trigger] s.contains(x) <==> (u.contains(x) || x == n) by {
            if s.contains(x) {
                let i = choose|i: int| 0 <= i < s.len() && s[i] == x;
                if i < s.len() - 1 {
                    assert(u[i] == x);
                }
            }
            if u.contains(x) {
                let i = choose|i: int| 0 <= i < u.len() && u[i] == x;
                assert(s[i] == x);
            }
            if x == n {
                assert(s[s.len() - 1] == x);
            }
        }
        assert forall|x: Name| #[trigger] f.push(n).contains(x) <==> (f.contains(x) || x == n) by {
            lemma_push_set(f, n);
            assert(f.push(n).to_set().contains(x) == f.to_set().insert(n).contains(x));
        }
        if s.no_duplicates() {
            assert forall|i: int, j: int|
                0 <= i < u.len() && 0 <= j < u.len() && i != j implies u[i] != u[j] by {
                assert(s[i] != s[j]);
            }
            assert(u.no_duplicates());
            if u.contains(n) {
                let i = choose|i: int| 0 <= i < u.len() && u[i] == n;
                assert(s[i] != s[s.len() - 1]);
            }
            assert(!f.contains(n));
        }
    }
}

/// Filling `ungrouped` keeps an inventory well formed.
pub proof fn lemma_reconcile_ungrouped_wf(i: InvView)
    requires
        i.wf(),
    ensures
        i.reconcile_ungrouped().wf(),
{
    let j = i.reconcile_ungrouped();
    let v = i.groups[UNGROUPED@];
    let pred = |h: Name| i.hosts[h].groups.len() == 0;
    assert(j.groups.dom() =~= i.groups.dom());
    lemma_filter_names(i.host_order, pred);
    lemma_with_names(v.hosts, i.orphan_hosts());
    assert(i.group_wf(UNGROUPED@));
    lemma_within_contains(v.hosts, i.hosts.dom());
    assert(within(j.groups[UNGROUPED@].hosts, i.hosts.dom())) by {
        let w = j.groups[UNGROUPED@].hosts;
        assert forall|k: int| 0 <= k < w.len() implies i.hosts.dom().contains(#[trigger] w[k]) by {
            assert(w.contains(w[k]));
        }
    }
    assert forall|h: Name| #[trigger] j.hosts.dom().contains(h) implies j.host_wf(h) by {
        assert(i.host_wf(h));
    }
    assert forall|q: Name| #[trigger] j.groups.dom().contains(q) implies j.group_wf(q) by {
        assert(i.group_wf(q));
    }
}

/// Appending an item to a list adds it to the set of the list's items.
pub proof fn lemma_push_set(s: Seq<Name>, n: Name)
    ensures
        s.push(n).to_set() == s.to_set().insert(n),
{
    assert forall|x: Name| #[trigger] s.push(n).contains(x) <==> (s.contains(x) || x == n) by {
        if s.contains(x) {
            let i = choose|i: int| 0 <= i < s.len() && s[i] == x;
            assert(s.push(n)[i] == x);
        }
        if x == n {
            assert(s.push(n)[s.len() as int] == x);
        }
    }
    assert(s.push(n).to_set() =~= s.to_set().insert(n));
}

/// A well-formed inventory is finite.
pub proof fn lemma_wf_finite(i: InvView)
    requires
        i.wf(),
    ensures
        i.groups.dom().finite(),
        i.hosts.dom().finite(),
{
    assert(i.groups.dom() =~= i.group_order.to_set());
    assert(i.hosts.dom() =~= i.host_order.to_set());
    vstd::seq_lib::seq_to_set_is_finite(i.group_order);
    vstd::seq_lib::seq_to_set_is_finite(i.host_order);
}

/// Linking two groups keeps an inventory well formed.
pub proof fn lemma_link_wf(i: InvView, p: Name, c: Name)
    requires
        i.wf(),
        i.groups.dom().contains(p),
        i.groups.dom().contains(c),
        p != c,
    ensures
        i.link(p, c).wf(),
        i.link(p, c).groups.dom() == i.groups.dom(),
{
    let j = i.link(p, c);
    assert(j.groups.dom() =~= i.groups.dom());
    lemma_with_name(i.groups[p].children, c);
    lemma_with_name(i.groups[c].parents, p);
    assert(i.group_wf(p));
    assert(i.group_wf(c));
    assert forall|h: Name| #[trigger] j.hosts.dom().contains(h) implies j.host_wf(h) by {
        assert(i.host_wf(h));
    }
    assert forall|q: Name| #[trigger] j.groups.dom().contains(q) implies j.group_wf(q) by {
        assert(i.group_wf(q));
    }
}

/// A new inventory is well formed.
pub(crate) proof fn lemma_new_wf()
    ensures
        new_inventory().wf(),
{
    lemma_special_names();
    let i = new_inventory();
    assert(i.group_order[0] == ALL@ && i.group_order[1] == UNGROUPED@);
    assert(i.groups[ALL@].children[0] == UNGROUPED@);
    assert(i.groups[UNGROUPED@].parents[0] == ALL@);
}

/// Adding a group keeps an inventory well formed.
pub proof fn lemma_add_group_wf(i: InvView, raw: Name)
    requires
        i.wf(),
    ensures
        i.add_group(raw).wf(),
{
    let g = safe_name(raw);
    let j = i.add_group(raw);
    if !i.groups.dom().contains(g) {
        lemma_lists_push(i.group_order, i.groups.dom(), g);
        assert(j.groups.dom() =~= i.groups.dom().insert(g));
        assert forall|h: Name| #[trigger] j.hosts.dom().contains(h) implies j.host_wf(h) by {
            assert(i.host_wf(h));
        }
        assert forall|q: Name| #[trigger] j.groups.dom().contains(q) implies j.group_wf(q) by {
            if q != g {
                assert(i.group_wf(q));
                lemma_within_contains(i.groups[q].children, i.groups.dom());
                lemma_within_contains(i.groups[q].parents, i.groups.dom());
            }
        }
        assert forall|h: Name| #[trigger] j.hosts.dom().contains(h) implies j.host_wf(h) by {
            assert(i.host_wf(h));
            lemma_within_contains(i.hosts[h].groups, i.groups.dom());
        }
    }
}

/// What a list within a set contains is in the set.
pub proof fn lemma_within_contains(s: Seq<Name>, d: Set<Name>)
    requires
        within(s, d),
    ensures
        forall|x: Name| #[trigger] s.contains(x) ==> d.contains(x),
{
    assert forall|x: Name| #[trigger] s.contains(x) implies d.contains(x) by {
        let i = choose|i: int| 0 <= i < s.len() && s[i] == x;
        assert(d.contains(s[i]));
    }
}

/// A new key at the end of a list of keys.
proof fn lemma_lists_push(order: Seq<Name>, d: Set<Name>, k: Name)
    requires
        lists(order, d),
        !d.contains(k),
    ensures
        lists(order.push(k), d.insert(k)),
{
    assert forall|x: Name| #[trigger] d.insert(k).contains(x) <==> order.push(k).contains(x) by {
        if order.contains(x) {
            let i = choose|i: int| 0 <= i < order.len() && order[i] == x;
            assert(order.push(k)[i] == x);
        }
        if x == k {
            assert(order.push(k)[order.len() as int] == x);
        }
    }
    assert(!order.contains(k));
}

/// What `with_name` holds.
pub proof fn lemma_with_name(s: Seq<Name>, n: Name)
    ensures
        forall|x: Name| #[trigger] with_name(s, n).contains(x) <==> (s.contains(x) || x == n),
        s.no_duplicates() ==> with_name(s, n).no_duplicates(),
{
    assert forall|x: Name| #[trigger] with_name(s, n).contains(x) <==> (s.contains(x) || x
        == n) by {
        if s.contains(x) && !s.contains(n) {
            let i = choose|i: int| 0 <= i < s.len() && s[i] == x;
            assert(s.push(n)[i] == x);
        }
        if x == n && !s.contains(n) {
            assert(s.push(n)[s.len() as int] == x);
        }
    }
}

/// Adding a host keeps an inventory well formed.
pub proof fn lemma_add_host_wf(i: InvView, n: Name)
    requires
        i.wf(),
    ensures
        i.add_host(n).wf(),
{
    let j = i.add_host(n);
    if !i.hosts.dom().contains(n) {
        lemma_lists_push(i.host_order, i.hosts.dom(), n);
        assert(j.hosts.dom() =~= i.hosts.dom().insert(n));
        assert forall|h: Name| #[trigger] j.hosts.dom().contains(h) implies j.host_wf(h) by {
            if h != n {
                assert(i.host_wf(h));
            }
        }
        assert forall|q: Name| #[trigger] j.groups.dom().contains(q) implies j.group_wf(q) by {
            assert(i.group_wf(q));
            lemma_within_contains(i.groups[q].hosts, i.hosts.dom());
        }
    }
}

/// Adding a host to a group keeps an inventory well formed.
pub proof fn lemma_add_host_to_group_wf(i: InvView, n: Name, g: Name)
    requires
        i.wf(),
        i.hosts.dom().contains(n),
        i.groups.dom().contains(g),
    ensures
        i.add_host_to_group(n, g).wf(),
{
    let j = i.add_host_to_group(n, g);
    assert(j.hosts.dom() =~= i.hosts.dom());
    assert(j.groups.dom() =~= i.groups.dom());
    lemma_with_name(i.groups[g].hosts, n);
    lemma_with_name(i.hosts[n].groups, g);
    assert(i.group_wf(g));
    assert(i.host_wf(n));
    assert forall|h: Name| #[trigger] j.hosts.dom().contains(h) implies j.host_wf(h) by {
        assert(i.host_wf(h));
    }
    assert forall|q: Name| #[trigger] j.groups.dom().contains(q) implies j.group_wf(q) by {
        assert(i.group_wf(q));
    }
}

/// Changing what a group carries, but not its name or links, keeps an inventory well formed.
pub proof fn lemma_group_data_wf(i: InvView, g: Name, v: GroupView)
    requires
        i.wf(),
        i.groups.dom().contains(g),
        v.depth <= u32::MAX,
        v == (GroupView {
            depth: v.depth,
            priority: v.priority,
            vars: v.vars,
            file_vars: v.file_vars,
            ..i.groups[g]
        }),
    ensures
        i.with_group(g, v).wf(),
{
    let j = i.with_group(g, v);
    assert(j.groups.dom() =~= i.groups.dom());
    assert forall|h: Name| #[trigger] j.hosts.dom().contains(h) implies j.host_wf(h) by {
        assert(i.host_wf(h));
    }
    assert forall|q: Name| #[trigger] j.groups.dom().contains(q) implies j.group_wf(q) by {
        assert(i.group_wf(q));
    }
}

/// Changing the variables of a host keeps an inventory well formed.
pub proof fn lemma_host_data_wf(i: InvView, n: Name, v: HostView)
    requires
        i.wf(),
        i.hosts.dom().contains(n),
        v == (HostView { vars: v.vars, file_vars: v.file_vars, ..i.hosts[n] }),
    ensures
        i.with_host(n, v).wf(),
{
    let j = i.with_host(n, v);
    assert(j.hosts.dom() =~= i.hosts.dom());
    assert forall|h: Name| #[trigger] j.hosts.dom().contains(h) implies j.host_wf(h) by {
        assert(i.host_wf(h));
    }
    assert forall|q: Name| #[trigger] j.groups.dom().contains(q) implies j.group_wf(q) by {
        assert(i.group_wf(q));
    }
}

// ---------------------------------------------------------------------------------------
// Laws
// ---------------------------------------------------------------------------------------

/// A host's groups are `all`, the groups it was put into (`ungrouped` where it was put into
/// none), and their ancestors; each stands once.
pub proof fn law_host_groups(i: InvView, h: Name)
    requires
        i.wf(),
    ensures
        i.host_groups(h).contains(ALL@),
        i.host_groups(h).no_duplicates(),
        forall|g: Name|
            #[trigger] i.host_groups(h).contains(g) <==> exists|s: Name| #[trigger]
                i.group_seeds(h).contains(s) && reaches(i.parents(), s, g),
{
    lemma_wf_finite(i);
    assert(i.parents().dom() =~= i.groups.dom());
    lemma_walk_is_reach(i.parents(), i.group_seeds(h));
    let seeds = i.group_seeds(h);
    assert(seeds[seeds.len() - 1] == ALL@);
    assert(seeds.contains(ALL@));
    lemma_reaches_self(i.parents(), ALL@);
}

/// What `hosts_of` holds: the hosts of every one of the groups, each once.
pub proof fn lemma_hosts_of(i: InvView, gs: Seq<Name>)
    ensures
        i.hosts_of(gs).no_duplicates(),
        forall|h: Name|
            #[trigger] i.hosts_of(gs).contains(h) <==> exists|g: Name| #[trigger]
                gs.contains(g) && i.groups.dom().contains(g) && i.groups[g].hosts.contains(h),
    decreases gs.len(),
{
    if gs.len() > 0 {
        let u = gs.drop_last();
        let n = gs.last();
        lemma_hosts_of(i, u);
        assert forall|x: Name| #[trigger] gs.contains(x) <==> (u.contains(x) || x == n) by {
            if gs.contains(x) {
                let k = choose|k: int| 0 <= k < gs.len() && gs[k] == x;
                if k < u.len() {
                    assert(u[k] == x);
                }
            }
            if u.contains(x) {
                let k = choose|k: int| 0 <= k < u.len() && u[k] == x;
                assert(gs[k] == x);
            }
            if x == n {
                assert(gs[gs.len() - 1] == x);
            }
        }
        lemma_with_names(i.hosts_of(u), i.groups[n].hosts);
        assert forall|h: Name|
            #[trigger] i.hosts_of(gs).contains(h) <==> exists|g: Name| #[trigger]
                gs.contains(g) && i.groups.dom().contains(g) && i.groups[g].hosts.contains(h) by {
            if i.hosts_of(gs).contains(h) {
                if i.hosts_of(u).contains(h) {
                    let g = choose|g: Name| #[trigger]
                        u.contains(g) && i.groups.dom().contains(g) && i.groups[g].hosts.contains(
                            h,
                        );
                    assert(gs.contains(g) && i.groups.dom().contains(g) && i.groups[g].hosts.contains(
                    h));
                } else {
                    assert(gs.contains(n) && i.groups.dom().contains(n) && i.groups[n].hosts.contains(
                    h));
                }
            }
            if exists|g: Name| #[trigger]
                gs.contains(g) && i.groups.dom().contains(g) && i.groups[g].hosts.contains(h) {
                let g = choose|g: Name| #[trigger]
                    gs.contains(g) && i.groups.dom().contains(g) && i.groups[g].hosts.contains(h);
                if g != n {
                    assert(u.contains(g));
                    assert(i.hosts_of(u).contains(h));
                }
            }
        }
    }
}

/// The groups of a host, one by one: those that it was put into, or `ungrouped` where it was
/// put into none; those above them; `all` and those above it; and no others.
pub proof fn law_groups_of_a_host(i: InvView, h: Name, g: Name)
    requires
        i.wf(),
        i.hosts.dom().contains(h),
    ensures
        i.host_groups(h).contains(g) <==> {
            ||| exists|s: Name| #[trigger]
                i.hosts[h].groups.contains(s) && reaches(i.parents(), s, g)
            ||| i.hosts[h].groups.len() == 0 && reaches(i.parents(), UNGROUPED@, g)
            ||| reaches(i.parents(), ALL@, g)
        },
{
    law_host_groups(i, h);
    let own = i.hosts[h].groups;
    let seeds = i.group_seeds(h);
    let n = seeds.len() - 1;
    assert(seeds[n] == ALL@);
    assert(seeds.contains(ALL@));
    if own.len() == 0 {
        assert(seeds[0] == UNGROUPED@);
        assert(seeds.contains(UNGROUPED@));
    }
    assert forall|s: Name| #[trigger] own.contains(s) implies seeds.contains(s) by {
        let k = choose|k: int| 0 <= k < own.len() && own[k] == s;
        assert(seeds[k] == s);
    }
    if i.host_groups(h).contains(g) {
        let s = choose|s: Name| #[trigger] seeds.contains(s) && reaches(i.parents(), s, g);
        let k = choose|k: int| 0 <= k < seeds.len() && seeds[k] == s;
        if k < n && own.len() > 0 {
            assert(own[k] == s);
            assert(own.contains(s));
        }
    }
}

/// A group's hosts are those of the group and of every group below it; each stands once.
pub proof fn law_group_all_hosts(i: InvView, g: Name)
    requires
        i.wf(),
    ensures
        i.group_all_hosts(g).no_duplicates(),
        forall|h: Name|
            #[trigger] i.group_all_hosts(g).contains(h) <==> exists|d: Name| #[trigger]
                reaches(i.children(), g, d) && i.groups.dom().contains(d)
                    && i.groups[d].hosts.contains(h),
{
    lemma_wf_finite(i);
    assert(i.children().dom() =~= i.groups.dom());
    let w = walk(i.children(), seq![g], Seq::empty());
    lemma_walk_is_reach(i.children(), seq![g]);
    lemma_hosts_of(i, w);
    assert(seq![g][0] == g);
    assert(seq![g].contains(g));
    assert forall|h: Name|
        #[trigger] i.group_all_hosts(g).contains(h) <==> exists|d: Name| #[trigger]
            reaches(i.children(), g, d) && i.groups.dom().contains(d) && i.groups[d].hosts.contains(
                h,
            ) by {
        if i.group_all_hosts(g).contains(h) {
            let d = choose|d: Name| #[trigger]
                w.contains(d) && i.groups.dom().contains(d) && i.groups[d].hosts.contains(h);
            assert(reaches(i.children(), g, d));
        }
        if exists|d: Name| #[trigger]
            reaches(i.children(), g, d) && i.groups.dom().contains(d) && i.groups[d].hosts.contains(
                h,
            ) {
            let d = choose|d: Name| #[trigger]
                reaches(i.children(), g, d) && i.groups.dom().contains(d)
                    && i.groups[d].hosts.contains(h);
            assert(w.contains(d));
        }
    }
}

/// Adding a name that is in the list already, any number of times, changes nothing.
proof fn lemma_with_names_there(s: Seq<Name>, ns: Seq<Name>)
    requires
        forall|k: int| 0 <= k < ns.len() ==> s.contains(#[trigger] ns[k]),
    ensures
        with_names(s, ns) == s,
    decreases ns.len(),
{
    if ns.len() > 0 {
        assert forall|k: int| 0 <= k < ns.drop_last().len() implies s.contains(
            #[trigger] ns.drop_last()[k],
        ) by {
            assert(s.contains(ns[k]));
        }
        lemma_with_names_there(s, ns.drop_last());
        assert(s.contains(ns[ns.len() - 1]));
    }
}

/// Filling `ungrouped` puts exactly the hosts without an explicit group into it, on top of
/// those it held, and a second time changes nothing.
pub proof fn law_reconcile_ungrouped(i: InvView)
    requires
        i.wf(),
    ensures
        forall|h: Name|
            #[trigger] i.reconcile_ungrouped().groups[UNGROUPED@].hosts.contains(h) <==> (
            i.groups[UNGROUPED@].hosts.contains(h) || (i.hosts.dom().contains(h)
                && i.hosts[h].groups.len() == 0)),
        i.reconcile_ungrouped().reconcile_ungrouped() == i.reconcile_ungrouped(),
{
    let j = i.reconcile_ungrouped();
    let pred = |h: Name| i.hosts[h].groups.len() == 0;
    lemma_filter_names(i.host_order, pred);
    lemma_with_names(i.groups[UNGROUPED@].hosts, i.orphan_hosts());
    let hs = j.groups[UNGROUPED@].hosts;
    assert(j.orphan_hosts() == i.orphan_hosts());
    assert forall|k: int| 0 <= k < j.orphan_hosts().len() implies hs.contains(
        #[trigger] j.orphan_hosts()[k],
    ) by {
        assert(i.orphan_hosts().contains(i.orphan_hosts()[k]));
    }
    lemma_with_names_there(hs, j.orphan_hosts());
    assert(j.reconcile_ungrouped().groups =~= j.groups);
}

/// Adoption under `all` keeps the parents a group holds, gives each adopted group one, and
/// touches neither hosts nor orders.
proof fn lemma_adopt(i: InvView, gs: Seq<Name>)
    requires
        i.wf(),
        within(gs, i.groups.dom()),
    ensures
        i.adopt(gs).wf(),
        i.adopt(gs).groups.dom() == i.groups.dom(),
        i.adopt(gs).hosts == i.hosts,
        i.adopt(gs).host_order == i.host_order,
        i.adopt(gs).group_order == i.group_order,
        forall|g: Name| #[trigger]
            i.groups.dom().contains(g) ==> i.adopt(gs).groups[g].parents == (if gs.contains(g)
                && g != ALL@ {
                with_name(i.groups[g].parents, ALL@)
            } else {
                i.groups[g].parents
            }),
    decreases gs.len(),
{
    if gs.len() > 0 {
        let u = gs.drop_last();
        let n = gs.last();
        assert forall|k: int| 0 <= k < u.len() implies i.groups.dom().contains(#[trigger] u[k]) by {
            assert(i.groups.dom().contains(gs[k]));
        }
        assert(i.groups.dom().contains(gs[gs.len() - 1]));
        lemma_adopt(i, u);
        let a = i.adopt(u);
        lemma_add_child_wf(a, ALL@, n);
        assert forall|x: Name| #[trigger] gs.contains(x) <==> (u.contains(x) || x == n) by {
            if gs.contains(x) {
                let k = choose|k: int| 0 <= k < gs.len() && gs[k] == x;
                if k < u.len() {
                    assert(u[k] == x);
                }
            }
            if u.contains(x) {
                let k = choose|k: int| 0 <= k < u.len() && u[k] == x;
                assert(gs[k] == x);
            }
            if x == n {
                assert(gs[gs.len() - 1] == x);
            }
        }
        if n != ALL@ {
            lemma_link_wf(a, ALL@, n);
            lemma_deepen(a.link(ALL@, n), ALL@, n);
            lemma_with_name(i.groups[n].parents, ALL@);
        }
    }
}

/// Tying loose groups to `all` leaves no group but `all` without a parent, gives no second
/// parent to a group that had one, and a second time changes nothing.
pub proof fn law_reconcile_all_children(i: InvView)
    requires
        i.wf(),
    ensures
        ({
            let j = i.adopt(i.orphan_groups());
            &&& forall|g: Name| #[trigger]
                i.groups.dom().contains(g) && g != ALL@ ==> j.groups[g].parents == (
                if i.groups[g].parents.len() == 0 {
                    seq![ALL@]
                } else {
                    i.groups[g].parents
                })
            &&& j.groups[ALL@].parents == i.groups[ALL@].parents
            &&& j.adopt(j.orphan_groups()) == j
        }),
{
    let gs = i.orphan_groups();
    let pred = |g: Name| g != ALL@ && i.groups[g].parents.len() == 0;
    lemma_filter_names(i.group_order, pred);
    assert(within(gs, i.groups.dom())) by {
        assert forall|k: int| 0 <= k < gs.len() implies i.groups.dom().contains(
            #[trigger] gs[k],
        ) by {
            assert(gs.contains(gs[k]));
            assert(i.group_order.contains(gs[k]));
        }
    }
    lemma_adopt(i, gs);
    let j = i.adopt(gs);
    assert forall|g: Name| #[trigger]
        i.groups.dom().contains(g) && g != ALL@ implies j.groups[g].parents == (
    if i.groups[g].parents.len() == 0 {
        seq![ALL@]
    } else {
        i.groups[g].parents
    }) by {
        if i.groups[g].parents.len() == 0 {
            assert(pred(g));
            assert(i.group_order.contains(g));
            assert(gs.contains(g));
            assert(with_name(i.groups[g].parents, ALL@) =~= seq![ALL@]);
        } else {
            assert(!pred(g));
        }
    }
    assert(!pred(ALL@));
    let again = j.orphan_groups();
    let pred2 = |g: Name| g != ALL@ && j.groups[g].parents.len() == 0;
    lemma_filter_names(j.group_order, pred2);
    if again.len() > 0 {
        assert(again.contains(again[0]));
        assert(i.groups.dom().contains(again[0]));
    }
    assert(again =~= Seq::empty());
}

/// Every group of an inventory has a name that sanitizing leaves as it is.
pub proof fn law_group_names_are_safe(i: InvView, g: Name)
    requires
        i.wf(),
        i.groups.dom().contains(g),
    ensures
        is_safe(g),
        safe_name(g) == g,
{
    assert(i.group_wf(g));
    lemma_safe_name_fixed(g);
}

/// After `c` was linked under `p`, it is at least one deeper than `p` was; no depth got
/// smaller and no other data changed.
pub proof fn law_add_child_depth(i: InvView, p: Name, c: Name)
    requires
        i.wf(),
        i.groups.dom().contains(p),
        i.groups.dom().contains(c),
        p != c,
    ensures
        i.add_child(p, c).groups[c].depth >= below(i.groups[p].depth),
        deeper(i.link(p, c).groups, i.add_child(p, c).groups),
{
    lemma_link_wf(i, p, c);
    let j = i.link(p, c);
    lemma_deepened(j, p, c);
}

/// Every group that can be reached from `c`, `c` included, lies below each of its parents.
pub open spec fn lies_below_parents(gs: Map<Name, GroupView>, ch: Edges, c: Name) -> bool {
    forall|q: Name, z: Name|
        #![trigger reaches(ch, c, q), gs[q].parents.contains(z)]
        reaches(ch, c, q) && gs[q].parents.contains(z) ==> gs[q].depth >= below(gs[z].depth)
}

/// New depths reach every descendant. Where `c` is linked under `p`, no group that can be
/// reached from `c` lies on a cycle, and each of them lay below all its parents before, each
/// of them lies below all its parents afterwards, `p` included.
pub proof fn law_depths_reach_descendants(i: InvView, p: Name, c: Name)
    requires
        i.wf(),
        i.groups.dom().contains(p),
        i.groups.dom().contains(c),
        p != c,
        no_cycle(i.link(p, c).children(), reach(i.link(p, c).children(), c)),
        lies_below_parents(i.groups, i.link(p, c).children(), c),
    ensures
        lies_below_parents(i.add_child(p, c).groups, i.link(p, c).children(), c),
        i.add_child(p, c).children() == i.link(p, c).children(),
{
    let j = i.link(p, c);
    let k = i.add_child(p, c);
    let ch = j.children();
    let below_c = reach(ch, c);
    lemma_link_wf(i, p, c);
    lemma_deepened(j, p, c);
    lemma_wf_finite(j);
    assert(j.group_wf(c) && j.group_wf(p));
    assert(ch =~= child_links(j.groups));
    assert(ch.dom() =~= j.groups.dom());
    assert(k.children() =~= ch);
    assert forall|u: Name, v: Name|
        #![trigger steps(ch, u).contains(v)]
        steps(ch, u).contains(v) implies ch.dom().contains(v) by {
        assert(j.group_wf(u));
        lemma_within_contains(j.groups[u].children, j.groups.dom());
    }
    lemma_reach_closed(ch, c, below_c);
    lemma_with_name(i.groups[p].children, c);
    lemma_with_name(i.groups[c].parents, p);
    assert(steps(ch, p).contains(c));
    assert(!reaches(ch, c, p)) by {
        if reaches(ch, c, p) {
            assert(below_c.contains(p));
        }
    }
    let d0 = depths(j.groups);
    let d = d0.insert(c, below(j.groups[p].depth));
    let moves = j.groups[c].depth < below(j.groups[p].depth);
    if moves {
        assert forall|u: Name, v: Name|
            #![trigger steps(ch, u).contains(v)]
            below_c.contains(v) && steps(ch, u).contains(v) && !set![c].contains(
                u,
            ) implies d[v] >= below(d[u]) by {
            assert(j.group_wf(u));
            assert(ch.dom().contains(v));
            assert(j.groups[v].parents.contains(u));
            if !(u == p && v == c) {
                assert(i.groups[v].parents.contains(u));
                assert(reaches(ch, c, v));
            }
        }
        assert forall|o: Name| #[trigger] set![c].contains(o) implies reaches(ch, o, c) by {
            lemma_reaches_self(ch, c);
        }
        lemma_sunk_leads_down(ch, d, c, set![c], below_c);
        lemma_sunk(ch, d, c, set![c]);
    }
    assert forall|q: Name, z: Name|
        #![trigger reaches(ch, c, q), k.groups[q].parents.contains(z)]
        reaches(ch, c, q) && k.groups[q].parents.contains(z) implies k.groups[q].depth >= below(
        k.groups[z].depth,
    ) by {
        assert(below_c.contains(q));
        lemma_reached_is_group(j, c, q);
        assert(j.group_wf(q));
        assert(j.groups[q].parents.contains(z));
        lemma_within_contains(j.groups[q].parents, j.groups.dom());
        assert(j.groups[z].children.contains(q));
        assert(steps(ch, z).contains(q));
        if moves {
            let e = sunk(ch, d, c, set![c]);
            assert(!set![c].remove(c).contains(z));
            assert(e[q] >= below(e[z]));
        } else {
            if !(z == p && q == c) {
                assert(i.groups[q].parents.contains(z));
            }
        }
    }
}

/// What can be reached from a group is a group.
proof fn lemma_reached_is_group(i: InvView, c: Name, q: Name)
    requires
        i.wf(),
        i.groups.dom().contains(c),
        reaches(i.children(), c, q),
    ensures
        i.groups.dom().contains(q),
{
    let ch = i.children();
    assert forall|x: Name, y: Name|
        #![trigger i.groups.dom().contains(x), steps(ch, x).contains(y)]
        i.groups.dom().contains(x) && steps(ch, x).contains(y) implies i.groups.dom().contains(
        y,
    ) by {
        assert(i.group_wf(x));
        lemma_within_contains(i.groups[x].children, i.groups.dom());
    }
    lemma_closed_reaches(ch, i.groups.dom(), c, q);
}

/// Linking two groups again changes nothing, where the parent is no descendant of the
/// child.
pub proof fn law_linking_again(i: InvView, p: Name, c: Name)
    requires
        i.wf(),
        i.groups.dom().contains(p),
        i.groups.dom().contains(c),
        !reaches(i.link(p, c).children(), c, p),
    ensures
        i.add_child(p, c).add_child(p, c) == i.add_child(p, c),
{
    if p != c {
        let j = i.link(p, c);
        let k = i.add_child(p, c);
        law_add_child_links(i, p, c);
        lemma_link_wf(i, p, c);
        lemma_deepened(j, p, c);
        let ch = child_links(j.groups);
        assert(ch =~= j.children());
        lemma_wf_finite(j);
        let d = depths(j.groups).insert(c, below(j.groups[p].depth));
        if j.groups[c].depth < below(j.groups[p].depth) {
            lemma_new_depth(j, p, c);
            lemma_moved(ch, d, c);
        }
        assert(k.groups[p].depth == j.groups[p].depth);
        assert(k.groups[c].depth >= below(k.groups[p].depth));
    }
}

/// Linking the same two groups again changes no link.
pub proof fn law_add_child_links(i: InvView, p: Name, c: Name)
    requires
        i.wf(),
        i.groups.dom().contains(p),
        i.groups.dom().contains(c),
        p != c,
    ensures
        i.add_child(p, c).groups[p].children.contains(c),
        i.add_child(p, c).groups[c].parents.contains(p),
        i.add_child(p, c).link(p, c) == i.add_child(p, c),
{
    lemma_link_wf(i, p, c);
    lemma_deepen(i.link(p, c), p, c);
    lemma_with_name(i.groups[p].children, c);
    lemma_with_name(i.groups[c].parents, p);
    let j = i.add_child(p, c);
    assert(j.link(p, c).groups =~= j.groups);
}

/// Adding a group or a host that is there changes nothing.
pub proof fn law_adding_again(i: InvView, raw: Name, h: Name)
    ensures
        i.add_group(raw).add_group(raw) == i.add_group(raw),
        i.add_host(h).add_host(h) == i.add_host(h),
{
}

/// `ansible_group_priority` is never stored among a group's variables; it sets the priority
/// to the integer it is, or that its text writes.
pub proof fn law_priority_not_stored(i: InvView, g: Name, k: Name, x: ValueView)
    requires
        i.groups.dom().contains(g),
        !holds(i.groups[g].vars, PRIORITY_VAR@),
    ensures
        !holds(i.set_group_var(g, k, x).groups[g].vars, PRIORITY_VAR@),
        k == PRIORITY_VAR@ ==> i.set_group_var(g, k, x).groups[g].vars == i.groups[g].vars,
        forall|n: i64| #![trigger dec(n as int)]
            k == PRIORITY_VAR@ && (x == ValueView::Int(n as int) || x == ValueView::Text(
                dec(n as int),
            )) ==> i.set_group_var(g, k, x).groups[g].priority == n,
{
    assert forall|n: i64| #![trigger dec(n as int)]
        k == PRIORITY_VAR@ && (x == ValueView::Int(n as int) || x == ValueView::Text(
            dec(n as int),
        )) implies i.set_group_var(g, k, x).groups[g].priority == n by {
        law_decimal_reads_back(n as int);
        lemma_dec_is_trimmed(n as int);
    }
    if k != PRIORITY_VAR@ {
        lemma_put_get(i.groups[g].vars, k, x, PRIORITY_VAR@);
    }
}

} // verus!
