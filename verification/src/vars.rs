//! Which variables win.
//!
//! From the lowest to the highest precedence: the variables of `all`, those of its
//! `group_vars/` files, the variables of the host's other groups in the order of depth,
//! priority and name, those of these groups' `group_vars/` files in the same order, the
//! host's own variables, and those of its `host_vars/` files. A key of a higher layer
//! replaces the value of a lower one whole; values are not merged.

use vstd::prelude::*;
use vstd::relations::{sorted_by, total_ordering};
use vstd::seq_lib::{lemma_sorted_unique, to_multiset_build, to_multiset_insert};
use crate::assoc::{cut, distinct, get, holds, lemma_cut_get, lemma_overlay_distinct, lemma_overlay_get, overlay, Name};
use crate::model::{lemma_filter_names, ALL, GroupView, HostView, InvView, InventoryData, PRIORITY_VAR};
use crate::text::{lemma_text_le_antisym, lemma_text_le_refl, lemma_text_le_total, lemma_text_le_trans, names, same, text_le, text_not_after};
use crate::value::{VarMap, VarsView};

verus! {

/// The names that are never part of the variables in the output.
pub const INTERNAL_STATIC_VARS: [&'static str; 34] = [
    "ansible_async_path",
    "ansible_collection_name",
    "ansible_config_file",
    "ansible_dependent_role_names",
    "ansible_diff_mode",
    "ansible_facts",
    "ansible_forks",
    "ansible_inventory_sources",
    "ansible_limit",
    "ansible_play_batch",
    "ansible_play_hosts",
    "ansible_play_hosts_all",
    "ansible_play_role_names",
    "ansible_playbook_python",
    "ansible_role_name",
    "ansible_role_names",
    "ansible_run_tags",
    "ansible_skip_tags",
    "ansible_verbosity",
    "ansible_version",
    "group_names",
    "groups",
    "hostvars",
    "inventory_dir",
    "inventory_file",
    "inventory_hostname",
    "inventory_hostname_short",
    "omit",
    "play_hosts",
    "playbook_dir",
    "role_name",
    "role_names",
    "role_path",
    "role_uuid",
];

/// `INTERNAL_STATIC_VARS` as mathematics.
pub open spec fn internal_names() -> Seq<Name> {
    Seq::new(34, |i: int| INTERNAL_STATIC_VARS[i]@)
}

/// `vars` without these names, taken out one after the other.
pub open spec fn without(vars: VarsView, ns: Seq<Name>) -> VarsView
    decreases ns.len(),
{
    if ns.len() == 0 {
        vars
    } else {
        cut(without(vars, ns.drop_last()), ns.last())
    }
}

/// `vars` without the internal names.
pub open spec fn public_vars(vars: VarsView) -> VarsView {
    without(vars, internal_names())
}

/// Layers of variables on top of each other, the last on top.
pub open spec fn stacked(layers: Seq<VarsView>) -> VarsView
    decreases layers.len(),
{
    if layers.len() == 0 {
        Seq::empty()
    } else {
        overlay(stacked(layers.drop_last()), layers.last())
    }
}

/// The order in which groups are layered: by depth, then priority, then name.
pub open spec fn not_above(i: InvView, a: Name, b: Name) -> bool {
    let x = i.groups[a];
    let y = i.groups[b];
    x.depth < y.depth || (x.depth == y.depth && (x.priority < y.priority || (x.priority
        == y.priority && text_le(a, b))))
}

/// A host's groups without `all`, in that order.
pub open spec fn layered_groups(i: InvView, h: Name) -> Seq<Name> {
    i.host_groups(h).filter(|g: Name| g != ALL@ && i.groups.dom().contains(g)).sort_by(
        |a: Name, b: Name| not_above(i, a, b),
    )
}

/// The inventory variables of some groups.
pub open spec fn group_layers(i: InvView, gs: Seq<Name>) -> Seq<VarsView> {
    Seq::new(gs.len(), |k: int| i.groups[gs[k]].vars)
}

/// The file variables of some groups.
pub open spec fn group_file_layers(i: InvView, gs: Seq<Name>) -> Seq<VarsView> {
    Seq::new(gs.len(), |k: int| i.groups[gs[k]].file_vars)
}

/// All layers of a host's variables, the lowest first.
pub open spec fn host_layers(i: InvView, h: Name) -> Seq<VarsView> {
    let gs = layered_groups(i, h);
    seq![i.groups[ALL@].vars, i.groups[ALL@].file_vars] + group_layers(i, gs)
        + group_file_layers(i, gs) + (if i.hosts.dom().contains(h) {
        seq![i.hosts[h].vars, i.hosts[h].file_vars]
    } else {
        Seq::empty()
    })
}

/// The layers of a host's variables that the inventory sources gave, the lowest first.
pub open spec fn host_inline_layers(i: InvView, h: Name) -> Seq<VarsView> {
    seq![i.groups[ALL@].vars] + group_layers(i, layered_groups(i, h)) + (
    if i.hosts.dom().contains(h) {
        seq![i.hosts[h].vars]
    } else {
        Seq::empty()
    })
}

/// What a host's variables resolve to.
pub open spec fn resolved(i: InvView, h: Name) -> VarsView {
    stacked(host_layers(i, h))
}

/// What a host's variables resolve to, files left aside.
pub open spec fn resolved_inline(i: InvView, h: Name) -> VarsView {
    stacked(host_inline_layers(i, h))
}

/// Puts every variable of `src` into `dst`, replacing what was under its name.
pub fn combine(dst: &mut VarMap, src: &VarMap)
    ensures
        final(dst)@ == overlay(old(dst)@, src@),
{
    dst.extend(src)
}

/// Takes the internal names out.
pub fn remove_internal(vars: &mut VarMap)
    ensures
        final(vars)@ == public_vars(old(vars)@),
{
    let ghost before = vars@;
    let ghost ns = internal_names();
    let mut i: usize = 0;
    while i < 34
        invariant
            i <= 34,
            ns == internal_names(),
            vars@ == without(before, ns.take(i as int)),
        decreases 34 - i,
    {
        proof {
            assert(ns.take(i + 1).drop_last() =~= ns.take(i as int));
            assert(ns.take(i + 1).last() == ns[i as int]);
        }
        vars.remove(INTERNAL_STATIC_VARS[i]);
        i += 1;
    }
    assert(ns.take(i as int) =~= ns);
}

/// The layering order is total.
proof fn lemma_not_above_total(i: InvView)
    ensures
        total_ordering(|a: Name, b: Name| not_above(i, a, b)),
{
    let r = |a: Name, b: Name| not_above(i, a, b);
    assert forall|a: Name| #[trigger] r(a, a) by {
        lemma_text_le_refl(a);
    }
    assert forall|a: Name, b: Name| #[trigger] r(a, b) && #[trigger] r(b, a) implies a == b by {
        lemma_text_le_antisym(a, b);
    }
    assert forall|a: Name, b: Name, c: Name| #[trigger] r(a, b) && #[trigger] r(b, c) implies r(
        a,
        c,
    ) by {
        if text_le(a, b) && text_le(b, c) {
            lemma_text_le_trans(a, b, c);
        }
    }
    assert forall|a: Name, b: Name| #[trigger] r(a, b) || #[trigger] r(b, a) by {
        lemma_text_le_total(a, b);
    }
}

/// Compares two groups by the layering order.
fn group_not_above(inv: &InventoryData, a: &str, b: &str) -> (r: bool)
    requires
        inv@.groups.dom().contains(a@),
        inv@.groups.dom().contains(b@),
    ensures
        r == not_above(inv@, a@, b@),
{
    match (inv.group(a), inv.group(b)) {
        (Some(x), Some(y)) => x.depth < y.depth || (x.depth == y.depth && (x.priority < y.priority
            || (x.priority == y.priority && text_not_after(a, b)))),
        _ => vstd::pervasive::unreached(),
    }
}

/// A host's groups without `all`, in the layering order.
fn host_groups_sorted(inv: &InventoryData, host: &str) -> (r: Vec<String>)
    requires
        inv@.wf(),
    ensures
        names(r@) == layered_groups(inv@, host@),
        forall|k: int| 0 <= k < r@.len() ==> inv@.groups.dom().contains((#[trigger] r@[k])@),
{
    let ghost i0 = inv@;
    let ghost leq = |a: Name, b: Name| not_above(i0, a, b);
    let ghost pred = |g: Name| g != ALL@ && i0.groups.dom().contains(g);
    let all = inv.host_groups(host);
    let ghost src = names(all@);
    let mut out: Vec<String> = Vec::new();
    let mut k: usize = 0;
    proof {
        lemma_not_above_total(i0);
        assert(src.take(0).filter(pred) =~= Seq::empty()) by {
            reveal(Seq::filter);
        }
        assert(names(out@) =~= Seq::empty());
    }
    while k < all.len()
        invariant
            k <= all.len(),
            i0 == inv@,
            src == names(all@),
            leq == (|a: Name, b: Name| not_above(i0, a, b)),
            total_ordering(leq),
            pred == (|g: Name| g != ALL@ && i0.groups.dom().contains(g)),
            names(out@).to_multiset() == src.take(k as int).filter(pred).to_multiset(),
            sorted_by(names(out@), leq),
            forall|j: int| 0 <= j < out@.len() ==> i0.groups.dom().contains((#[trigger] out@[j])@),
        decreases all.len() - k,
    {
        let g = &all[k];
        proof {
            reveal(Seq::filter);
            let t = src.take(k + 1);
            assert(t.drop_last() =~= src.take(k as int));
            assert(t.last() == g@);
            to_multiset_build(src.take(k as int).filter(pred), g@);
        }
        if !same(g.as_str(), ALL) && inv.group(g.as_str()).is_some() {
            let mut j: usize = 0;
            while j < out.len() && group_not_above(inv, out[j].as_str(), g.as_str())
                invariant
                    j <= out.len(),
                    i0 == inv@,
                    leq == (|a: Name, b: Name| not_above(i0, a, b)),
                    i0.groups.dom().contains(g@),
                    forall|m: int| 0 <= m < j ==> leq(#[trigger] names(out@)[m], g@),
                    forall|m: int|
                        0 <= m < out@.len() ==> i0.groups.dom().contains((#[trigger] out@[m])@),
                decreases out.len() - j,
            {
                j += 1;
            }
            let ghost before = out@;
            let ghost b = names(before);
            out.insert(j, g.clone());
            proof {
                let a = names(out@);
                assert(a =~= b.insert(j as int, g@));
                to_multiset_insert(b, j as int, g@);
                assert forall|x: int, y: int| 0 <= x < y < a.len() implies #[trigger] leq(
                    a[x],
                    a[y],
                ) by {
                    let x0 = if x < j {
                        x
                    } else {
                        x - 1
                    };
                    let y0 = if y < j {
                        y
                    } else {
                        y - 1
                    };
                    if x != j && y != j {
                        assert(a[x] == b[x0] && a[y] == b[y0]);
                        assert(leq(b[x0], b[y0]));
                    } else if y == j {
                        assert(a[x] == b[x]);
                    } else {
                        assert(a[y] == b[y0]);
                        assert(!leq(b[j as int], g@));
                        assert(leq(g@, b[j as int]));
                        if y0 > j {
                            assert(leq(b[j as int], b[y0]));
                            assert(leq(g@, b[y0]));
                        }
                    }
                }
                assert forall|m: int| 0 <= m < out@.len() implies i0.groups.dom().contains(
                    (#[trigger] out@[m])@,
                ) by {
                    if m < j {
                        assert(out@[m] == before[m]);
                    } else if m > j {
                        assert(out@[m] == before[m - 1]);
                    }
                }
            }
        }
        k += 1;
    }
    proof {
        assert(src.take(k as int) =~= src);
        let f = src.filter(pred);
        f.lemma_sort_by_ensures(leq);
        lemma_sorted_unique(names(out@), f.sort_by(leq), leq);
    }
    out
}

/// One layer more.
proof fn lemma_stacked_push(layers: Seq<VarsView>, x: VarsView)
    ensures
        stacked(layers.push(x)) == overlay(stacked(layers), x),
{
    assert(layers.push(x).drop_last() =~= layers);
}

/// Layers the inventory variables of some groups on top of `dst`.
fn combine_groups(inv: &InventoryData, gs: &Vec<String>, dst: &mut VarMap, Ghost(ls): Ghost<
    Seq<VarsView>,
>)
    requires
        old(dst)@ == stacked(ls),
        forall|k: int| 0 <= k < gs@.len() ==> inv@.groups.dom().contains((#[trigger] gs@[k])@),
    ensures
        final(dst)@ == stacked(ls + group_layers(inv@, names(gs@))),
{
    let ghost gl = group_layers(inv@, names(gs@));
    let mut i: usize = 0;
    assert(ls + gl.take(0) =~= ls);
    while i < gs.len()
        invariant
            i <= gs.len(),
            gl == group_layers(inv@, names(gs@)),
            dst@ == stacked(ls + gl.take(i as int)),
            forall|k: int| 0 <= k < gs@.len() ==> inv@.groups.dom().contains((#[trigger] gs@[k])@),
        decreases gs.len() - i,
    {
        match inv.group(gs[i].as_str()) {
            Some(g) => {
                combine(dst, &g.vars);
                proof {
                    assert(gl[i as int] == g.vars@);
                    lemma_stacked_push(ls + gl.take(i as int), g.vars@);
                    assert((ls + gl.take(i as int)).push(g.vars@) =~= ls + gl.take(i + 1));
                }
            },
            None => vstd::pervasive::unreached(),
        }
        i += 1;
    }
    assert(gl.take(i as int) =~= gl);
}

/// Layers the file variables of some groups on top of `dst`.
fn combine_group_files(inv: &InventoryData, gs: &Vec<String>, dst: &mut VarMap, Ghost(ls): Ghost<
    Seq<VarsView>,
>)
    requires
        old(dst)@ == stacked(ls),
        forall|k: int| 0 <= k < gs@.len() ==> inv@.groups.dom().contains((#[trigger] gs@[k])@),
    ensures
        final(dst)@ == stacked(ls + group_file_layers(inv@, names(gs@))),
{
    let ghost gl = group_file_layers(inv@, names(gs@));
    let mut i: usize = 0;
    assert(ls + gl.take(0) =~= ls);
    while i < gs.len()
        invariant
            i <= gs.len(),
            gl == group_file_layers(inv@, names(gs@)),
            dst@ == stacked(ls + gl.take(i as int)),
            forall|k: int| 0 <= k < gs@.len() ==> inv@.groups.dom().contains((#[trigger] gs@[k])@),
        decreases gs.len() - i,
    {
        match inv.group(gs[i].as_str()) {
            Some(g) => {
                combine(dst, &g.file_vars);
                proof {
                    assert(gl[i as int] == g.file_vars@);
                    lemma_stacked_push(ls + gl.take(i as int), g.file_vars@);
                    assert((ls + gl.take(i as int)).push(g.file_vars@) =~= ls + gl.take(i + 1));
                }
            },
            None => vstd::pervasive::unreached(),
        }
        i += 1;
    }
    assert(gl.take(i as int) =~= gl);
}

/// Resolves a host's variables.
pub fn resolve_host_vars(inv: &InventoryData, host: &str) -> (r: VarMap)
    requires
        inv@.wf(),
    ensures
        r@ == resolved(inv@, host@),
{
    let ghost i = inv@;
    let mut result = VarMap::new();
    let ghost mut ls: Seq<VarsView> = Seq::empty();
    match inv.group(ALL) {
        Some(all) => {
            combine(&mut result, &all.vars);
            combine(&mut result, &all.file_vars);
            proof {
                lemma_stacked_push(ls, all.vars@);
                lemma_stacked_push(ls.push(all.vars@), all.file_vars@);
                ls = seq![all.vars@, all.file_vars@];
                assert(Seq::<VarsView>::empty().push(all.vars@).push(all.file_vars@) =~= ls);
            }
        },
        None => vstd::pervasive::unreached(),
    }
    let gs = host_groups_sorted(inv, host);
    combine_groups(inv, &gs, &mut result, Ghost(ls));
    proof {
        ls = ls + group_layers(i, names(gs@));
    }
    combine_group_files(inv, &gs, &mut result, Ghost(ls));
    proof {
        ls = ls + group_file_layers(i, names(gs@));
    }
    match inv.host(host) {
        Some(h) => {
            combine(&mut result, &h.vars);
            combine(&mut result, &h.file_vars);
            proof {
                lemma_stacked_push(ls, h.vars@);
                lemma_stacked_push(ls.push(h.vars@), h.file_vars@);
                assert(ls.push(h.vars@).push(h.file_vars@) =~= host_layers(i, host@));
            }
        },
        None => {
            assert(ls =~= host_layers(i, host@));
        },
    }
    result
}

/// Resolves a host's variables from the inventory sources alone, without the variables of
/// `group_vars/` and `host_vars/` files.
pub fn resolve_host_inline_vars(inv: &InventoryData, host: &str) -> (r: VarMap)
    requires
        inv@.wf(),
    ensures
        r@ == resolved_inline(inv@, host@),
{
    let ghost i = inv@;
    let mut result = VarMap::new();
    let ghost mut ls: Seq<VarsView> = Seq::empty();
    match inv.group(ALL) {
        Some(all) => {
            combine(&mut result, &all.vars);
            proof {
                lemma_stacked_push(ls, all.vars@);
                ls = seq![all.vars@];
                assert(Seq::<VarsView>::empty().push(all.vars@) =~= ls);
            }
        },
        None => vstd::pervasive::unreached(),
    }
    let gs = host_groups_sorted(inv, host);
    combine_groups(inv, &gs, &mut result, Ghost(ls));
    proof {
        ls = ls + group_layers(i, names(gs@));
    }
    match inv.host(host) {
        Some(h) => {
            combine(&mut result, &h.vars);
            proof {
                lemma_stacked_push(ls, h.vars@);
                assert(ls.push(h.vars@) =~= host_inline_layers(i, host@));
            }
        },
        None => {
            assert(ls =~= host_inline_layers(i, host@));
        },
    }
    result
}

// ---------------------------------------------------------------------------------------
// Laws
// ---------------------------------------------------------------------------------------

/// The value of a key is that of the highest layer that has the key; a key of no layer is
/// not there.
pub proof fn law_highest_layer_wins(layers: Seq<VarsView>, k: Name)
    requires
        forall|j: int| 0 <= j < layers.len() ==> distinct(#[trigger] layers[j]),
    ensures
        distinct(stacked(layers)),
        forall|j: int|
            0 <= j < layers.len() && holds(#[trigger] layers[j], k) && (forall|m: int|
                j < m < layers.len() ==> !holds(#[trigger] layers[m], k)) ==> get(
                stacked(layers),
                k,
            ) == get(layers[j], k),
        (forall|j: int| 0 <= j < layers.len() ==> !holds(#[trigger] layers[j], k)) ==> get(
            stacked(layers),
            k,
        ) is None,
    decreases layers.len(),
{
    if layers.len() > 0 {
        let u = layers.drop_last();
        assert forall|j: int| 0 <= j < u.len() implies distinct(#[trigger] u[j]) by {
            assert(distinct(layers[j]));
        }
        law_highest_layer_wins(u, k);
        let n = layers.len() - 1;
        assert(distinct(layers[n]));
        lemma_overlay_get(stacked(u), layers[n], k);
        lemma_overlay_distinct(stacked(u), layers[n]);
        assert forall|j: int|
            0 <= j < layers.len() && holds(#[trigger] layers[j], k) && (forall|m: int|
                j < m < layers.len() ==> !holds(#[trigger] layers[m], k)) implies get(
            stacked(layers),
            k,
        ) == get(layers[j], k) by {
            if j < n {
                assert(!holds(layers[n], k));
                assert(u[j] == layers[j]);
                assert forall|m: int| j < m < u.len() implies !holds(#[trigger] u[m], k) by {
                    assert(!holds(layers[m], k));
                }
            }
        }
        if forall|j: int| 0 <= j < layers.len() ==> !holds(#[trigger] layers[j], k) {
            assert(!holds(layers[n], k));
            assert forall|j: int| 0 <= j < u.len() implies !holds(#[trigger] u[j], k) by {
                assert(!holds(layers[j], k));
            }
        }
    }
}

/// A variable of a host's `host_vars/` files wins over everything, and one of the host
/// itself over everything that groups set.
pub proof fn law_host_wins(i: InvView, h: Name, k: Name)
    requires
        i.hosts.dom().contains(h),
        forall|j: int|
            0 <= j < host_layers(i, h).len() ==> distinct(#[trigger] host_layers(i, h)[j]),
    ensures
        holds(i.hosts[h].file_vars, k) ==> get(resolved(i, h), k) == get(i.hosts[h].file_vars, k),
        holds(i.hosts[h].vars, k) && !holds(i.hosts[h].file_vars, k) ==> get(resolved(i, h), k)
            == get(i.hosts[h].vars, k),
{
    let ls = host_layers(i, h);
    let n = ls.len();
    law_highest_layer_wins(ls, k);
    assert(ls[n - 1] == i.hosts[h].file_vars);
    assert(ls[n - 2] == i.hosts[h].vars);
}

/// Where the file variables of the host's groups stand among its layers.
proof fn lemma_file_layer(i: InvView, h: Name, b: int)
    requires
        0 <= b < layered_groups(i, h).len(),
    ensures
        2 + layered_groups(i, h).len() + b < host_layers(i, h).len(),
        host_layers(i, h)[2 + layered_groups(i, h).len() + b]
            == i.groups[layered_groups(i, h)[b]].file_vars,
{
}

/// Behind those of its groups stand the host's own layers, if any.
proof fn lemma_host_layer(i: InvView, h: Name, m: int)
    requires
        2 + 2 * layered_groups(i, h).len() <= m < host_layers(i, h).len(),
    ensures
        i.hosts.dom().contains(h),
        host_layers(i, h)[m] == i.hosts[h].vars || host_layers(i, h)[m] == i.hosts[h].file_vars,
{
}

/// Among the host's groups, a `group_vars/` file variable wins over every inventory
/// variable of every group, whatever their order.
pub proof fn law_group_files_win(i: InvView, h: Name, k: Name, a: int)
    requires
        forall|j: int|
            0 <= j < host_layers(i, h).len() ==> distinct(#[trigger] host_layers(i, h)[j]),
        0 <= a < layered_groups(i, h).len(),
        holds(i.groups[layered_groups(i, h)[a]].file_vars, k),
        forall|b: int|
            a < b < layered_groups(i, h).len() ==> !holds(
                i.groups[#[trigger] layered_groups(i, h)[b]].file_vars,
                k,
            ),
        i.hosts.dom().contains(h) ==> !holds(i.hosts[h].vars, k) && !holds(i.hosts[h].file_vars, k),
    ensures
        get(resolved(i, h), k) == get(i.groups[layered_groups(i, h)[a]].file_vars, k),
{
    let ls = host_layers(i, h);
    let n = layered_groups(i, h).len() as int;
    let j = 2 + n + a;
    lemma_file_layer(i, h, a);
    assert(ls[j] == i.groups[layered_groups(i, h)[a]].file_vars);
    assert forall|m: int| j < m < ls.len() implies !holds(#[trigger] ls[m], k) by {
        if m < 2 + 2 * n {
            let b = m - 2 - n;
            lemma_file_layer(i, h, b);
            assert(!holds(i.groups[layered_groups(i, h)[b]].file_vars, k));
        } else {
            lemma_host_layer(i, h, m);
        }
    }
    law_highest_layer_wins(ls, k);
}

/// The layered groups are the host's groups but `all`, in order of depth, priority and
/// name.
pub proof fn law_layered_groups(i: InvView, h: Name)
    ensures
        sorted_by(layered_groups(i, h), |a: Name, b: Name| not_above(i, a, b)),
        forall|g: Name| #[trigger]
            layered_groups(i, h).contains(g) <==> (i.host_groups(h).contains(g) && g != ALL@
                && i.groups.dom().contains(g)),
{
    let leq = |a: Name, b: Name| not_above(i, a, b);
    let pred = |g: Name| g != ALL@ && i.groups.dom().contains(g);
    let f = i.host_groups(h).filter(pred);
    lemma_not_above_total(i);
    lemma_filter_names(i.host_groups(h), pred);
    f.lemma_sort_by_ensures(leq);
    assert forall|g: Name| #[trigger] layered_groups(i, h).contains(g) <==> f.contains(g) by {
        vstd::seq_lib::to_multiset_contains(f, g);
        vstd::seq_lib::to_multiset_contains(layered_groups(i, h), g);
    }
}

/// Combining is a shallow overwrite: a key of `src` gets its value from `src`, nested
/// values included, and every other key keeps its own.
pub proof fn law_combine_is_shallow(dst: VarsView, src: VarsView, k: Name)
    requires
        distinct(src),
    ensures
        get(overlay(dst, src), k) == (if holds(src, k) {
            get(src, k)
        } else {
            get(dst, k)
        }),
{
    lemma_overlay_get(dst, src, k);
}

proof fn lemma_without(vars: VarsView, ns: Seq<Name>, k: Name)
    requires
        distinct(vars),
    ensures
        distinct(without(vars, ns)),
        get(without(vars, ns), k) == (if ns.contains(k) {
            None
        } else {
            get(vars, k)
        }),
    decreases ns.len(),
{
    if ns.len() > 0 {
        let u = ns.drop_last();
        lemma_without(vars, u, k);
        lemma_cut_get(without(vars, u), ns.last(), k);
        if ns.contains(k) {
            let j = choose|j: int| 0 <= j < ns.len() && ns[j] == k;
            if j < u.len() {
                assert(u[j] == k);
            }
        }
        if u.contains(k) {
            let j = choose|j: int| 0 <= j < u.len() && u[j] == k;
            assert(ns[j] == k);
        }
        if k == ns.last() {
            assert(ns[ns.len() - 1] == k);
        }
    }
}

/// Taking internal names out keeps names distinct.
pub(crate) proof fn lemma_public_distinct(vars: VarsView)
    requires
        distinct(vars),
    ensures
        distinct(public_vars(vars)),
{
    lemma_without(vars, internal_names(), Seq::empty());
}

/// `ansible_group_priority` is no internal name.
pub proof fn lemma_priority_is_public()
    ensures
        !internal_names().contains(PRIORITY_VAR@),
{
    reveal_strlit("ansible_group_priority");
    assert(PRIORITY_VAR@[0] == 'a' && PRIORITY_VAR@[8] == 'g');
    reveal_strlit("ansible_async_path");
    reveal_strlit("ansible_collection_name");
    reveal_strlit("ansible_config_file");
    reveal_strlit("ansible_dependent_role_names");
    reveal_strlit("ansible_diff_mode");
    reveal_strlit("ansible_facts");
    reveal_strlit("ansible_forks");
    reveal_strlit("ansible_inventory_sources");
    reveal_strlit("ansible_limit");
    reveal_strlit("ansible_play_batch");
    reveal_strlit("ansible_play_hosts");
    reveal_strlit("ansible_play_hosts_all");
    reveal_strlit("ansible_play_role_names");
    reveal_strlit("ansible_playbook_python");
    reveal_strlit("ansible_role_name");
    reveal_strlit("ansible_role_names");
    reveal_strlit("ansible_run_tags");
    reveal_strlit("ansible_skip_tags");
    reveal_strlit("ansible_verbosity");
    reveal_strlit("ansible_version");
    reveal_strlit("group_names");
    reveal_strlit("groups");
    reveal_strlit("hostvars");
    reveal_strlit("inventory_dir");
    reveal_strlit("inventory_file");
    reveal_strlit("inventory_hostname");
    reveal_strlit("inventory_hostname_short");
    reveal_strlit("omit");
    reveal_strlit("play_hosts");
    reveal_strlit("playbook_dir");
    reveal_strlit("role_name");
    reveal_strlit("role_names");
    reveal_strlit("role_path");
    reveal_strlit("role_uuid");
    assert forall|k: int| 0 <= k < 34 implies #[trigger] internal_names()[k] != PRIORITY_VAR@ by {
        let n = internal_names()[k];
        assert(n[0] != 'a' || n[8] != 'g');
    }
}

/// The output holds no internal name, and every other variable as it was.
pub proof fn law_internal_removed(vars: VarsView, k: Name)
    requires
        distinct(vars),
    ensures
        get(public_vars(vars), k) == (if internal_names().contains(k) {
            None
        } else {
            get(vars, k)
        }),
{
    lemma_without(vars, internal_names(), k);
}

/// Two inventories that differ in nothing but the variables of files.
pub open spec fn alike_but_files(i: InvView, j: InvView) -> bool {
    &&& i.hosts.dom() == j.hosts.dom()
    &&& i.groups.dom() == j.groups.dom()
    &&& forall|h: Name| #[trigger]
        i.hosts.dom().contains(h) ==> j.hosts[h] == (HostView {
            file_vars: j.hosts[h].file_vars,
            ..i.hosts[h]
        })
    &&& forall|g: Name| #[trigger]
        i.groups.dom().contains(g) ==> j.groups[g] == (GroupView {
            file_vars: j.groups[g].file_vars,
            ..i.groups[g]
        })
}

/// Variables of files are not seen where only the inventory sources count, as in a
/// construction.
pub proof fn law_inline_ignores_files(i: InvView, j: InvView, h: Name)
    requires
        alike_but_files(i, j),
        i.groups.dom().contains(ALL@),
    ensures
        resolved_inline(i, h) == resolved_inline(j, h),
{
    assert(i.parents() =~= j.parents()) by {
        assert forall|g: Name| #[trigger] i.parents().dom().contains(g) implies i.parents()[g]
            == j.parents()[g] by {
            assert(i.groups.dom().contains(g));
        }
    }
    assert(i.group_seeds(h) == j.group_seeds(h));
    assert(i.host_groups(h) == j.host_groups(h));
    let pi = |g: Name| g != ALL@ && i.groups.dom().contains(g);
    let pj = |g: Name| g != ALL@ && j.groups.dom().contains(g);
    assert(pi =~= pj);
    let f = i.host_groups(h).filter(pi);
    let li = |a: Name, b: Name| not_above(i, a, b);
    let lj = |a: Name, b: Name| not_above(j, a, b);
    lemma_not_above_total(i);
    lemma_not_above_total(j);
    f.lemma_sort_by_ensures(li);
    f.lemma_sort_by_ensures(lj);
    let s = f.sort_by(li);
    let t = f.sort_by(lj);
    lemma_filter_names(i.host_groups(h), pi);
    assert forall|k: int| 0 <= k < t.len() implies i.groups.dom().contains(#[trigger] t[k]) by {
        assert(t.contains(t[k]));
        vstd::seq_lib::to_multiset_contains(t, t[k]);
        vstd::seq_lib::to_multiset_contains(f, t[k]);
        assert(f.contains(t[k]));
    }
    assert forall|a: int, b: int| 0 <= a < b < t.len() implies #[trigger] li(t[a], t[b]) by {
        assert(lj(t[a], t[b]));
        assert(i.groups.dom().contains(t[a]) && i.groups.dom().contains(t[b]));
    }
    vstd::seq_lib::lemma_sorted_unique(s, t, li);
    assert(layered_groups(i, h) == layered_groups(j, h));
    assert(group_layers(i, s) =~= group_layers(j, s));
    assert(host_inline_layers(i, h) =~= host_inline_layers(j, h));
}

} // verus!
