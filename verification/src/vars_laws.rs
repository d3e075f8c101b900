//! Which of the variables of one name a host gets, and which names are never shown.

use vstd::prelude::*;
use vstd::relations::sorted_by;
use crate::assoc::{distinct, get, holds, lemma_overlay_get, lemma_put_get, overlay, Name};
use crate::model::{ALL, InvView, PRIORITY_VAR};
use crate::parse::{ingest_host, ingest_vars};
use crate::script::host_vars_set;
use crate::serialize::{stripped, stripped_entries, stripped_items};
use crate::text::{lemma_text_le_antisym, text_le};
use crate::value::{ValueView, VarsView};
use crate::vars::{host_inline_layers, host_layers, internal_names, law_highest_layer_wins, law_internal_removed, law_layered_groups, layered_groups, not_above, public_vars, resolved, resolved_inline, INTERNAL_STATIC_VARS};

verus! {

// ---------------------------------------------------------------------------------------
// Precedence
// ---------------------------------------------------------------------------------------

/// The variables of group `g` count more than those of `b`: it is deeper, or as deep and of
/// a higher priority, or that high too and later by name.
pub open spec fn outranks(i: InvView, g: Name, b: Name) -> bool {
    let (x, y) = (i.groups[g], i.groups[b]);
    ||| x.depth > y.depth
    ||| x.depth == y.depth && x.priority > y.priority
    ||| x.depth == y.depth && x.priority == y.priority && b != g && text_le(b, g)
}

/// A group of a host other than `all`.
pub open spec fn is_group_of(i: InvView, g: Name, h: Name) -> bool {
    i.host_groups(h).contains(g) && g != ALL@ && i.groups.dom().contains(g)
}

/// No layer of a host has a name twice.
pub open spec fn layers_distinct(i: InvView, h: Name) -> bool {
    &&& forall|j: int|
        0 <= j < host_layers(i, h).len() ==> distinct(#[trigger] host_layers(i, h)[j])
    &&& forall|j: int|
        0 <= j < host_inline_layers(i, h).len() ==> distinct(
            #[trigger] host_inline_layers(i, h)[j],
        )
}

/// The host itself does not have the variable.
pub open spec fn host_lacks(i: InvView, h: Name, k: Name) -> bool {
    i.hosts.dom().contains(h) ==> !holds(i.hosts[h].vars, k) && !holds(i.hosts[h].file_vars, k)
}

proof fn lemma_last(s: Seq<Name>, p: spec_fn(Name) -> bool, c: int) -> (a: int)
    requires
        0 <= c < s.len(),
        p(s[c]),
    ensures
        c <= a < s.len(),
        p(s[a]),
        forall|m: int| a < m < s.len() ==> !p(#[trigger] s[m]),
    decreases s.len() - c,
{
    if exists|m: int| c < m < s.len() && p(#[trigger] s[m]) {
        let m = choose|m: int| c < m < s.len() && p(#[trigger] s[m]);
        lemma_last(s, p, m)
    } else {
        c
    }
}

/// Of the groups with a property, the one that outranks the others is the last.
proof fn lemma_highest(i: InvView, h: Name, p: spec_fn(Name) -> bool, g: Name) -> (a: int)
    requires
        is_group_of(i, g, h),
        p(g),
        forall|b: Name| #[trigger]
            is_group_of(i, b, h) && p(b) && b != g ==> outranks(i, g, b),
    ensures
        0 <= a < layered_groups(i, h).len(),
        layered_groups(i, h)[a] == g,
        forall|m: int| a < m < layered_groups(i, h).len() ==> !p(#[trigger] layered_groups(i, h)[m]),
{
    let s = layered_groups(i, h);
    law_layered_groups(i, h);
    assert(s.contains(g));
    let c = choose|c: int| 0 <= c < s.len() && s[c] == g;
    let a = lemma_last(s, p, c);
    let b = s[a];
    assert(s.contains(b));
    if b != g {
        assert(is_group_of(i, b, h));
        assert(outranks(i, g, b));
        let leq = |x: Name, y: Name| not_above(i, x, y);
        assert(sorted_by(s, leq));
        assert(leq(s[c], s[a]));
        assert(not_above(i, g, b));
        if text_le(b, g) && text_le(g, b) {
            lemma_text_le_antisym(g, b);
        }
        assert(false);
    }
    a
}

/// Of the variables that the sources give to a host's groups, those of the group that
/// outranks the others count: the deepest, then that of the highest priority, then the last
/// by name.
pub proof fn law_groups_in_rank(i: InvView, h: Name, k: Name, g: Name)
    requires
        layers_distinct(i, h),
        host_lacks(i, h, k),
        is_group_of(i, g, h),
        holds(i.groups[g].vars, k),
        forall|b: Name| #[trigger]
            is_group_of(i, b, h) && holds(i.groups[b].vars, k) && b != g ==> outranks(i, g, b),
    ensures
        get(resolved_inline(i, h), k) == get(i.groups[g].vars, k),
        (forall|b: Name| #[trigger] is_group_of(i, b, h) ==> !holds(i.groups[b].file_vars, k))
            ==> get(resolved(i, h), k) == get(i.groups[g].vars, k),
{
    let p = |b: Name| holds(i.groups[b].vars, k);
    assert forall|b: Name| #[trigger] is_group_of(i, b, h) && p(b) && b != g implies outranks(
        i,
        g,
        b,
    ) by {
        assert(holds(i.groups[b].vars, k));
    }
    let a = lemma_highest(i, h, p, g);
    let s = layered_groups(i, h);
    assert forall|m: int| a < m < s.len() implies !holds(i.groups[#[trigger] s[m]].vars, k) by {
        assert(!p(s[m]));
    }
    lemma_inline_wins(i, h, k, a);
    if forall|b: Name| #[trigger] is_group_of(i, b, h) ==> !holds(i.groups[b].file_vars, k) {
        law_layered_groups(i, h);
        assert forall|m: int| 0 <= m < s.len() implies !holds(
            i.groups[#[trigger] s[m]].file_vars,
            k,
        ) by {
            assert(s.contains(s[m]));
            assert(is_group_of(i, s[m], h));
        }
        lemma_group_wins(i, h, k, a);
    }
}

/// A layer from the sources is the highest with a variable where no later one has it.
proof fn lemma_inline_wins(i: InvView, h: Name, k: Name, a: int)
    requires
        layers_distinct(i, h),
        host_lacks(i, h, k),
        -1 <= a < layered_groups(i, h).len(),
        a >= 0 ==> holds(i.groups[layered_groups(i, h)[a]].vars, k),
        forall|m: int|
            a < m < layered_groups(i, h).len() ==> !holds(
                i.groups[#[trigger] layered_groups(i, h)[m]].vars,
                k,
            ),
    ensures
        get(resolved_inline(i, h), k) == get(
            i.groups[if a < 0 {
                ALL@
            } else {
                layered_groups(i, h)[a]
            }].vars,
            k,
        ),
{
    let s = layered_groups(i, h);
    let ls = host_inline_layers(i, h);
    law_highest_layer_wins(ls, k);
    assert(ls[0] == i.groups[ALL@].vars);
    if a >= 0 {
        assert(ls[1 + a] == i.groups[s[a]].vars);
    }
    assert forall|m: int| 1 + a < m < ls.len() implies !holds(#[trigger] ls[m], k) by {
        if m < 1 + s.len() {
            assert(ls[m] == i.groups[s[m - 1]].vars);
        }
    }
    if !holds(ls[1 + a], k) {
        assert(a < 0);
        assert forall|m: int| 0 <= m < ls.len() implies !holds(#[trigger] ls[m], k) by {}
    }
}

/// The same with the files, where no file has the variable.
proof fn lemma_group_wins(i: InvView, h: Name, k: Name, a: int)
    requires
        layers_distinct(i, h),
        host_lacks(i, h, k),
        0 <= a < layered_groups(i, h).len(),
        holds(i.groups[layered_groups(i, h)[a]].vars, k),
        forall|m: int|
            a < m < layered_groups(i, h).len() ==> !holds(
                i.groups[#[trigger] layered_groups(i, h)[m]].vars,
                k,
            ),
        forall|m: int|
            0 <= m < layered_groups(i, h).len() ==> !holds(
                i.groups[#[trigger] layered_groups(i, h)[m]].file_vars,
                k,
            ),
    ensures
        get(resolved(i, h), k) == get(i.groups[layered_groups(i, h)[a]].vars, k),
{
    let s = layered_groups(i, h);
    let fs = host_layers(i, h);
    law_highest_layer_wins(fs, k);
    assert(fs[2 + a] == i.groups[s[a]].vars);
    assert forall|m: int| 2 + a < m < fs.len() implies !holds(#[trigger] fs[m], k) by {
        if m < 2 + s.len() {
            assert(fs[m] == i.groups[s[m - 2]].vars);
        } else if m < 2 + 2 * s.len() {
            assert(fs[m] == i.groups[s[m - 2 - s.len()]].file_vars);
        }
    }
}

/// Of the variables in the files of a host's groups, those of the group that outranks the
/// others count, whatever the sources give.
pub proof fn law_group_files_in_rank(i: InvView, h: Name, k: Name, g: Name)
    requires
        layers_distinct(i, h),
        host_lacks(i, h, k),
        is_group_of(i, g, h),
        holds(i.groups[g].file_vars, k),
        forall|b: Name| #[trigger]
            is_group_of(i, b, h) && holds(i.groups[b].file_vars, k) && b != g ==> outranks(i, g, b),
    ensures
        get(resolved(i, h), k) == get(i.groups[g].file_vars, k),
{
    let p = |b: Name| holds(i.groups[b].file_vars, k);
    assert forall|b: Name| #[trigger] is_group_of(i, b, h) && p(b) && b != g implies outranks(
        i,
        g,
        b,
    ) by {
        assert(holds(i.groups[b].file_vars, k));
    }
    let a = lemma_highest(i, h, p, g);
    let s = layered_groups(i, h);
    let fs = host_layers(i, h);
    law_highest_layer_wins(fs, k);
    assert(fs[2 + s.len() + a] == i.groups[g].file_vars);
    assert forall|m: int| 2 + s.len() + a < m < fs.len() implies !holds(#[trigger] fs[m], k) by {
        if m < 2 + 2 * s.len() {
            assert(fs[m] == i.groups[s[m - 2 - s.len()]].file_vars);
            assert(!p(s[m - 2 - s.len()]));
        }
    }
}

/// The variables of `all` count where no other group of the host and not the host itself
/// has them: those of its files before those of the sources.
pub proof fn law_all_comes_last(i: InvView, h: Name, k: Name)
    requires
        layers_distinct(i, h),
        host_lacks(i, h, k),
        forall|b: Name| #[trigger]
            is_group_of(i, b, h) ==> !holds(i.groups[b].vars, k) && !holds(i.groups[b].file_vars, k),
    ensures
        get(resolved(i, h), k) == (if holds(i.groups[ALL@].file_vars, k) {
            get(i.groups[ALL@].file_vars, k)
        } else {
            get(i.groups[ALL@].vars, k)
        }),
        get(resolved_inline(i, h), k) == get(i.groups[ALL@].vars, k),
{
    let s = layered_groups(i, h);
    law_layered_groups(i, h);
    assert forall|m: int| 0 <= m < s.len() implies !holds(i.groups[#[trigger] s[m]].vars, k)
        && !holds(i.groups[s[m]].file_vars, k) by {
        assert(s.contains(s[m]));
        assert(is_group_of(i, s[m], h));
    }
    lemma_inline_wins(i, h, k, -1);
    lemma_all_wins(i, h, k);
}

proof fn lemma_all_wins(i: InvView, h: Name, k: Name)
    requires
        layers_distinct(i, h),
        host_lacks(i, h, k),
        forall|m: int|
            0 <= m < layered_groups(i, h).len() ==> !holds(
                i.groups[#[trigger] layered_groups(i, h)[m]].vars,
                k,
            ) && !holds(i.groups[layered_groups(i, h)[m]].file_vars, k),
    ensures
        get(resolved(i, h), k) == (if holds(i.groups[ALL@].file_vars, k) {
            get(i.groups[ALL@].file_vars, k)
        } else {
            get(i.groups[ALL@].vars, k)
        }),
{
    let s = layered_groups(i, h);
    let fs = host_layers(i, h);
    law_highest_layer_wins(fs, k);
    assert(fs[0] == i.groups[ALL@].vars && fs[1] == i.groups[ALL@].file_vars);
    assert forall|m: int| 1 < m < fs.len() implies !holds(#[trigger] fs[m], k) by {
        if m < 2 + s.len() {
            assert(fs[m] == i.groups[s[m - 2]].vars);
        } else if m < 2 + 2 * s.len() {
            assert(fs[m] == i.groups[s[m - 2 - s.len()]].file_vars);
        }
    }
    if !holds(fs[1], k) && holds(fs[0], k) {
        assert forall|m: int| 0 < m < fs.len() implies !holds(#[trigger] fs[m], k) by {}
    }
    if !holds(fs[1], k) && !holds(fs[0], k) {
        assert forall|m: int| 0 <= m < fs.len() implies !holds(#[trigger] fs[m], k) by {}
    }
}

/// The names that are never shown.
pub open spec fn is_internal(k: Name) -> bool {
    ||| k == "ansible_async_path"@ || k == "ansible_collection_name"@
    ||| k == "ansible_config_file"@ || k == "ansible_dependent_role_names"@
    ||| k == "ansible_diff_mode"@ || k == "ansible_facts"@ || k == "ansible_forks"@
    ||| k == "ansible_inventory_sources"@ || k == "ansible_limit"@ || k == "ansible_play_batch"@
    ||| k == "ansible_play_hosts"@ || k == "ansible_play_hosts_all"@
    ||| k == "ansible_play_role_names"@ || k == "ansible_playbook_python"@
    ||| k == "ansible_role_name"@ || k == "ansible_role_names"@ || k == "ansible_run_tags"@
    ||| k == "ansible_skip_tags"@ || k == "ansible_verbosity"@ || k == "ansible_version"@
    ||| k == "group_names"@ || k == "groups"@ || k == "hostvars"@
    ||| k == "inventory_dir"@ || k == "inventory_file"@ || k == "inventory_hostname"@
    ||| k == "inventory_hostname_short"@ || k == "omit"@ || k == "play_hosts"@
    ||| k == "playbook_dir"@ || k == "role_name"@ || k == "role_names"@ || k == "role_path"@
    ||| k == "role_uuid"@
}

/// What is shown of variables: all but those of internal names.
pub proof fn law_shown_variables(vars: VarsView, k: Name)
    requires
        distinct(vars),
    ensures
        get(public_vars(vars), k) == (if is_internal(k) {
            None
        } else {
            get(vars, k)
        }),
{
    law_internal_removed(vars, k);
    let ns = internal_names();
    assert forall|j: int| 0 <= j < 34 implies #[trigger] ns[j] == INTERNAL_STATIC_VARS[j]@ by {}
    if is_internal(k) {
        assert(ns[0] == k || ns[1] == k || ns[2] == k || ns[3] == k || ns[4] == k || ns[5] == k
            || ns[6] == k || ns[7] == k || ns[8] == k || ns[9] == k || ns[10] == k || ns[11] == k
            || ns[12] == k || ns[13] == k || ns[14] == k || ns[15] == k || ns[16] == k || ns[17]
            == k || ns[18] == k || ns[19] == k || ns[20] == k || ns[21] == k || ns[22] == k
            || ns[23] == k || ns[24] == k || ns[25] == k || ns[26] == k || ns[27] == k || ns[28]
            == k || ns[29] == k || ns[30] == k || ns[31] == k || ns[32] == k || ns[33] == k);
        assert(ns.contains(k));
    }
    if ns.contains(k) {
        let j = choose|j: int| 0 <= j < 34 && ns[j] == k;
        assert(INTERNAL_STATIC_VARS[j]@ == k);
        assert(is_internal(k));
    }
}

// ---------------------------------------------------------------------------------------
// Setting variables
// ---------------------------------------------------------------------------------------

/// Variables of a group are set one by one: each gets its value, those that are not given
/// keep theirs, and the group's priority is not among them. Other groups do not change.
pub proof fn law_group_variables_set(i: InvView, g: Name, o: VarsView, k: Name, q: Name)
    requires
        distinct(o),
        i.groups.dom().contains(g),
        k != PRIORITY_VAR@,
        q != g,
    ensures
        get(ingest_vars(i, g, o, o.len()).groups[g].vars, k) == (if holds(o, k) {
            get(o, k)
        } else {
            get(i.groups[g].vars, k)
        }),
        ingest_vars(i, g, o, o.len()).groups[q] == i.groups[q],
        ingest_vars(i, g, o, o.len()).hosts == i.hosts,
{
    lemma_group_vars(i, g, o, o.len(), k, q);
    assert(o.take(o.len() as int) =~= o);
    lemma_overlay_get(i.groups[g].vars, o, k);
}

proof fn lemma_group_vars(i: InvView, g: Name, o: VarsView, n: nat, k: Name, q: Name)
    requires
        n <= o.len(),
        i.groups.dom().contains(g),
        k != PRIORITY_VAR@,
        q != g,
    ensures
        get(ingest_vars(i, g, o, n).groups[g].vars, k) == get(
            overlay(i.groups[g].vars, o.take(n as int)),
            k,
        ),
        ingest_vars(i, g, o, n).groups[q] == i.groups[q],
        ingest_vars(i, g, o, n).groups.dom().contains(g),
        ingest_vars(i, g, o, n).hosts == i.hosts,
    decreases n,
{
    if n > 0 {
        let j = ingest_vars(i, g, o, (n - 1) as nat);
        lemma_group_vars(i, g, o, (n - 1) as nat, k, q);
        let t = o.take(n as int);
        assert(t.drop_last() =~= o.take(n - 1));
        assert(t.last() == o[n - 1]);
        lemma_put_get(j.groups[g].vars, o[n - 1].0, o[n - 1].1, k);
        lemma_put_get(overlay(i.groups[g].vars, o.take(n - 1)), o[n - 1].0, o[n - 1].1, k);
    } else {
        assert(o.take(0) =~= Seq::empty());
    }
}

/// A host of a document gets the variables that it is given, and keeps its others. Other
/// hosts do not change.
pub proof fn law_host_variables_set(i: InvView, g: Name, h: Name, v: VarsView, k: Name, x: Name)
    requires
        distinct(v),
        i.hosts.dom().contains(h),
        x != h,
    ensures
        get(ingest_host(i, g, h, Some(v)).hosts[h].vars, k) == (if holds(v, k) {
            get(v, k)
        } else {
            get(i.hosts[h].vars, k)
        }),
        get(ingest_host(i, g, h, None).hosts[h].vars, k) == get(i.hosts[h].vars, k),
        ingest_host(i, g, h, Some(v)).hosts[x] == i.hosts[x],
{
    lemma_overlay_get(i.hosts[h].vars, v, k);
}

/// A host that a script was asked about gets the variables that were printed for it, and
/// keeps its others. Other hosts do not change.
pub proof fn law_printed_variables_set(i: InvView, h: Name, v: VarsView, k: Name, x: Name)
    requires
        distinct(v),
        i.hosts.dom().contains(h),
        x != h,
    ensures
        get(host_vars_set(i, h, v, v.len()).hosts[h].vars, k) == (if holds(v, k) {
            get(v, k)
        } else {
            get(i.hosts[h].vars, k)
        }),
        host_vars_set(i, h, v, v.len()).hosts[x] == i.hosts[x],
{
    lemma_host_vars(i, h, v, v.len(), x);
    assert(v.take(v.len() as int) =~= v);
    lemma_overlay_get(i.hosts[h].vars, v, k);
}

proof fn lemma_host_vars(i: InvView, h: Name, v: VarsView, n: nat, x: Name)
    requires
        n <= v.len(),
        i.hosts.dom().contains(h),
        x != h,
    ensures
        host_vars_set(i, h, v, n).hosts[h].vars == overlay(i.hosts[h].vars, v.take(n as int)),
        host_vars_set(i, h, v, n).hosts[x] == i.hosts[x],
        host_vars_set(i, h, v, n).hosts.dom().contains(h),
    decreases n,
{
    if n > 0 {
        lemma_host_vars(i, h, v, (n - 1) as nat, x);
        let t = v.take(n as int);
        assert(t.drop_last() =~= v.take(n - 1));
        assert(t.last() == v[n - 1]);
    } else {
        assert(v.take(0) =~= Seq::empty());
    }
}

// ---------------------------------------------------------------------------------------
// Nulls
// ---------------------------------------------------------------------------------------

/// Taking the nulls out of a list takes out each null and nothing else, at every place.
pub proof fn law_nulls_of_a_list(a: Seq<ValueView>, v: ValueView)
    ensures
        stripped(ValueView::List(Seq::empty())) == ValueView::List(Seq::empty()),
        stripped(ValueView::List(a.push(v))) == ValueView::List(
            if v is Null {
                stripped(ValueView::List(a))->List_0
            } else {
                stripped(ValueView::List(a))->List_0.push(stripped(v))
            },
        ),
{
    lemma_front_items(a.push(v), a, a.len());
}

proof fn lemma_front_items(a: Seq<ValueView>, b: Seq<ValueView>, n: nat)
    requires
        n <= a.len(),
        n <= b.len(),
        forall|k: int| 0 <= k < n ==> a[k] == b[k],
    ensures
        stripped_items(a, n) == stripped_items(b, n),
    decreases n,
{
    if n > 0 {
        lemma_front_items(a, b, (n - 1) as nat);
        assert(a[n - 1] == b[n - 1]);
    }
}

/// Taking the nulls out of a map takes out each entry that is null and nothing else.
pub proof fn law_nulls_of_a_map(o: VarsView, n: Name, v: ValueView)
    ensures
        stripped(ValueView::Dict(Seq::empty())) == ValueView::Dict(Seq::empty()),
        stripped(ValueView::Dict(o.push((n, v)))) == ValueView::Dict(
            if v is Null {
                stripped(ValueView::Dict(o))->Dict_0
            } else {
                stripped(ValueView::Dict(o))->Dict_0.push((n, stripped(v)))
            },
        ),
{
    lemma_front_entries(o.push((n, v)), o, o.len());
}

proof fn lemma_front_entries(a: VarsView, b: VarsView, n: nat)
    requires
        n <= a.len(),
        n <= b.len(),
        forall|k: int| 0 <= k < n ==> a[k] == b[k],
    ensures
        stripped_entries(a, n) == stripped_entries(b, n),
    decreases n,
{
    if n > 0 {
        lemma_front_entries(a, b, (n - 1) as nat);
        assert(a[n - 1] == b[n - 1]);
    }
}

} // verus!
