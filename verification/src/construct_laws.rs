//! What a construction is for: hosts join the groups whose conditions they meet and the
//! groups that their keys name, and no others.

use vstd::prelude::*;
use crate::assoc::{distinct, get, lemma_pos, lemma_pos_unique, pos, Name};
use crate::constructed::{all_keyed_groups, assign, compositions, conditional_groups, config_fields, config_of, construct_host, construct_hosts, constructed, expr_map, expressions, item_names, join_all_keyed, join_keyed, key_names, keyed_groups, keyed_name, keyed_rule, law_compose_sees_a_snapshot, rule_fields, rule_list, rules_of, ConfigView, Exprs, Halt, KeyedView};
use crate::expr::{composed, evaluated};
use crate::expr::number::Floats;
use crate::expr::ops::is_true;
use crate::growth::{all_hosts, joins, leads, lemma_all_keyed_groups, lemma_assign, lemma_child_step, lemma_conditional_groups, lemma_construct_host, lemma_construct_hosts, lemma_group_step, lemma_grows, lemma_join_all_keyed, lemma_join_group, lemma_join_keyed, lemma_joins};
use crate::model::{lemma_deepen, lemma_link_wf, lemma_with_name, with_name, InvView};
use crate::sanitize::{lemma_safe_name_fixed, safe_name};
use crate::text::dec;
use crate::value::{ValueView, VarsView};
use crate::vars::resolved_inline;

verus! {

/// `h` is among the hosts of the group `g`.
pub open spec fn in_group(i: InvView, h: Name, g: Name) -> bool {
    i.groups.dom().contains(g) && i.groups[g].hosts.contains(h)
}

/// An expression has a value that is true.
pub open spec fn holds_true(src: Seq<char>, vars: VarsView, fl: Floats) -> bool {
    evaluated(src, vars, fl) matches Ok(v) && is_true(v)
}

/// The variables of a host that `groups` and `keyed_groups` see: those of the inventory with
/// the variables of `compose` assigned.
pub open spec fn seen_vars(i: InvView, h: Name, c: ConfigView, fl: Floats, path: Seq<char>) -> VarsView {
    resolved_inline(
        assign(i, h, compositions(c.compose, resolved_inline(i, h), c.strict, fl, path)->Ok_0),
        h,
    )
}

/// What a rule's key is, for some variables.
pub open spec fn key_of(g: KeyedView, vars: VarsView, fl: Floats) -> Option<ValueView> {
    match evaluated(g.key, vars, fl) {
        Ok(v) => Some(v),
        Err(_) => None,
    }
}

/// A rule gives this part to the name of a group.
pub open spec fn gives_name(g: KeyedView, trailing: bool, vars: VarsView, fl: Floats, bare: Name) -> bool {
    key_of(g, vars, fl) is Some && key_names(key_of(g, vars, fl).unwrap(), g, trailing) is Ok
        && key_names(key_of(g, vars, fl).unwrap(), g, trailing)->Ok_0.contains(bare)
}

// ---------------------------------------------------------------------------------------
// Steps
// ---------------------------------------------------------------------------------------

proof fn lemma_growing_hosts(i: InvView, j: InvView, h: Name, g: Name)
    requires
        joins(i, j),
        in_group(i, h, g),
    ensures
        in_group(j, h, g),
{
    let (a, b) = (i.groups[g].hosts, j.groups[g].hosts);
    assert(leads(a, b));
    let k = choose|k: int| 0 <= k < a.len() && a[k] == h;
    assert(b.take(a.len() as int)[k] == b[k]);
}

/// Putting a host into a group changes no other membership.
pub(crate) proof fn lemma_joined_hosts(i: InvView, h: Name, n: Name, x: Name, g: Name)
    requires
        i.groups.dom().contains(n),
    ensures
        in_group(i.add_host_to_group(h, n), x, g) <==> in_group(i, x, g) || (x == h && g == n),
{
    let j = i.add_host_to_group(h, n);
    lemma_with_name(i.groups[n].hosts, h);
    assert(j.groups[n].hosts == with_name(i.groups[n].hosts, h));
    if g != n {
        assert(j.groups.dom().contains(g) <==> i.groups.dom().contains(g));
        if i.groups.dom().contains(g) {
            assert(j.groups[g] == i.groups[g]);
        }
    }
}

/// Joining a group puts the host into it, and changes no other membership.
proof fn lemma_joined(i: InvView, h: Name, raw: Name, x: Name, g: Name)
    requires
        i.wf(),
        i.hosts.dom().contains(h),
    ensures
        ({
            let j = i.add_group(raw).add_host_to_group(h, safe_name(raw));
            &&& in_group(j, h, safe_name(raw))
            &&& in_group(j, x, g) <==> in_group(i, x, g) || (x == h && g == safe_name(raw))
        }),
{
    let a = i.add_group(raw);
    let n = safe_name(raw);
    lemma_group_step(i, raw);
    lemma_joined_hosts(a, h, n, x, g);
    lemma_joined_hosts(a, h, n, h, n);
    if !i.groups.dom().contains(n) {
        assert(!a.groups[n].hosts.contains(x));
    }
}

/// Linking groups changes no membership.
pub(crate) proof fn lemma_linked_hosts(i: InvView, p: Name, c: Name, x: Name, g: Name)
    requires
        i.wf(),
        i.groups.dom().contains(p),
        i.groups.dom().contains(c),
    ensures
        in_group(i.add_child(p, c), x, g) <==> in_group(i, x, g),
        p != c ==> i.add_child(p, c).groups[p].children.contains(c),
{
    if p != c {
        lemma_link_wf(i, p, c);
        lemma_deepen(i.link(p, c), p, c);
        let b = i.link(p, c);
        assert(b.groups.dom() =~= i.groups.dom());
        lemma_with_name(i.groups[p].children, c);
        assert(b.groups.dom().contains(p));
        if i.groups.dom().contains(g) {
            assert(b.groups.dom().contains(g));
            assert(b.groups[g].hosts == i.groups[g].hosts);
        }
    }
}

proof fn lemma_conditions(
    i: InvView,
    h: Name,
    es: Exprs,
    vars: VarsView,
    fl: Floats,
    path: Seq<char>,
    m: int,
)
    requires
        i.wf(),
        i.hosts.dom().contains(h),
        conditional_groups(i, h, es, vars, fl, path).1 is None,
        0 <= m < es.len(),
        holds_true(es[m].1, vars, fl),
    ensures
        in_group(conditional_groups(i, h, es, vars, fl, path).0, h, safe_name(es[m].0)),
    decreases es.len(),
{
    let u = es.drop_last();
    let (j, stop) = conditional_groups(i, h, u, vars, fl, path);
    lemma_conditional_groups(i, h, u, vars, fl, path);
    let (name, cond) = es.last();
    lemma_joined(j, h, name, h, safe_name(name));
    if m < u.len() {
        lemma_conditions(i, h, u, vars, fl, path, m);
        assert(u[m] == es[m]);
        lemma_join_group(j, h, name);
        lemma_grows(j, j, j);
        lemma_growing_hosts(
            j,
            conditional_groups(i, h, es, vars, fl, path).0,
            h,
            safe_name(es[m].0),
        );
    }
}

/// Some condition asks for this group.
pub open spec fn asked_for(es: Exprs, vars: VarsView, fl: Floats, g: Name) -> bool {
    exists|m: int|
        0 <= m < es.len() && holds_true((#[trigger] es[m]).1, vars, fl) && safe_name(es[m].0) == g
}

proof fn lemma_conditions_only(
    i: InvView,
    h: Name,
    es: Exprs,
    vars: VarsView,
    fl: Floats,
    path: Seq<char>,
    x: Name,
    g: Name,
)
    requires
        i.wf(),
        i.hosts.dom().contains(h),
        in_group(conditional_groups(i, h, es, vars, fl, path).0, x, g),
    ensures
        in_group(i, x, g) || (x == h && asked_for(es, vars, fl, g)),
    decreases es.len(),
{
    if es.len() > 0 {
        let u = es.drop_last();
        let (j, stop) = conditional_groups(i, h, u, vars, fl, path);
        lemma_conditional_groups(i, h, u, vars, fl, path);
        let (name, cond) = es.last();
        lemma_joined(j, h, name, x, g);
        assert(es[es.len() - 1] == es.last());
        if in_group(j, x, g) {
            lemma_conditions_only(i, h, u, vars, fl, path, x, g);
            if asked_for(u, vars, fl, g) {
                let m = choose|m: int|
                    0 <= m < u.len() && holds_true((#[trigger] u[m]).1, vars, fl) && safe_name(
                        u[m].0,
                    ) == g;
                assert(es[m] == u[m]);
            }
        }
    }
}

/// The parent of a rule's groups has the group among its children.
pub open spec fn under_parent(i: InvView, g: KeyedView, name: Name) -> bool {
    g.parent_group matches Some(p) ==> i.groups.dom().contains(safe_name(p)) && (safe_name(p) != name
        ==> i.groups[safe_name(p)].children.contains(name))
}

proof fn lemma_growing_parent(i: InvView, j: InvView, g: KeyedView, name: Name)
    requires
        joins(i, j),
        under_parent(i, g, name),
    ensures
        under_parent(j, g, name),
{
    if let Some(p) = g.parent_group {
        let q = safe_name(p);
        if q != name {
            let (a, b) = (i.groups[q].children, j.groups[q].children);
            assert(leads(a, b));
            let k = choose|k: int| 0 <= k < a.len() && a[k] == name;
            assert(b.take(a.len() as int)[k] == b[k]);
        }
    }
}

proof fn lemma_keyed_safe(g: KeyedView, bare: Name, leading: bool)
    ensures
        safe_name(keyed_name(g.prefix, g.separator, bare, leading)) == keyed_name(
            g.prefix,
            g.separator,
            bare,
            leading,
        ),
{
    lemma_safe_name_fixed(
        g.prefix + (if g.prefix.len() == 0 && !leading {
            Seq::empty()
        } else {
            g.separator
        }) + bare,
    );
}

proof fn lemma_one_keyed(i: InvView, h: Name, g: KeyedView, bare: Name, leading: bool, x: Name, q: Name)
    requires
        i.wf(),
        i.hosts.dom().contains(h),
    ensures
        ({
            let name = keyed_name(g.prefix, g.separator, bare, leading);
            let j = join_keyed(i, h, g, bare, leading);
            &&& in_group(j, h, name)
            &&& under_parent(j, g, name)
            &&& in_group(j, x, q) <==> in_group(i, x, q) || (x == h && q == name)
        }),
{
    let name = keyed_name(g.prefix, g.separator, bare, leading);
    lemma_keyed_safe(g, bare, leading);
    let a = i.add_group(name).add_host_to_group(h, name);
    lemma_join_group(i, h, name);
    lemma_joined(i, h, name, x, q);
    lemma_joined(i, h, name, h, name);
    if let Some(p) = g.parent_group {
        let b = a.add_group(p);
        lemma_group_step(a, p);
        lemma_linked_hosts(b, safe_name(p), name, x, q);
        lemma_linked_hosts(b, safe_name(p), name, h, name);
        lemma_join_keyed(i, h, g, bare, leading);
        assert(in_group(b, x, q) <==> in_group(a, x, q)) by {
            if b.groups.dom().contains(q) && !a.groups.dom().contains(q) {
                assert(!b.groups[q].hosts.contains(x));
            }
        }
        assert(in_group(b, h, name));
        assert(b.add_child(safe_name(p), name).groups.dom().contains(safe_name(p))) by {
            lemma_child_step(b, safe_name(p), name);
        }
    }
}

proof fn lemma_keyed_joins(
    i: InvView,
    h: Name,
    g: KeyedView,
    bares: Seq<Name>,
    leading: bool,
    k: int,
)
    requires
        i.wf(),
        i.hosts.dom().contains(h),
        0 <= k < bares.len(),
    ensures
        ({
            let name = keyed_name(g.prefix, g.separator, bares[k], leading);
            let j = join_all_keyed(i, h, g, bares, leading);
            in_group(j, h, name) && under_parent(j, g, name)
        }),
    decreases bares.len(),
{
    let u = bares.drop_last();
    let j = join_all_keyed(i, h, g, u, leading);
    lemma_join_all_keyed(i, h, g, u, leading);
    let name = keyed_name(g.prefix, g.separator, bares[k], leading);
    lemma_one_keyed(j, h, g, bares.last(), leading, h, name);
    if k < u.len() {
        lemma_keyed_joins(i, h, g, u, leading, k);
        assert(u[k] == bares[k]);
        lemma_join_keyed(j, h, g, bares.last(), leading);
        lemma_growing_hosts(j, join_all_keyed(i, h, g, bares, leading), h, name);
        lemma_growing_parent(j, join_all_keyed(i, h, g, bares, leading), g, name);
    }
}

proof fn lemma_keyed_only(
    i: InvView,
    h: Name,
    g: KeyedView,
    bares: Seq<Name>,
    leading: bool,
    x: Name,
    q: Name,
)
    requires
        i.wf(),
        i.hosts.dom().contains(h),
        in_group(join_all_keyed(i, h, g, bares, leading), x, q),
        !in_group(i, x, q),
    ensures
        x == h,
        exists|b: Name|
            bares.contains(b) && q == #[trigger] keyed_name(g.prefix, g.separator, b, leading),
    decreases bares.len(),
{
    if bares.len() > 0 {
        let u = bares.drop_last();
        let j = join_all_keyed(i, h, g, u, leading);
        lemma_join_all_keyed(i, h, g, u, leading);
        lemma_one_keyed(j, h, g, bares.last(), leading, x, q);
        assert(bares[bares.len() - 1] == bares.last());
        assert(bares.contains(bares.last()));
        if in_group(j, x, q) {
            lemma_keyed_only(i, h, g, u, leading, x, q);
            let b = choose|b: Name|
                u.contains(b) && q == #[trigger] keyed_name(g.prefix, g.separator, b, leading);
            let k = choose|k: int| 0 <= k < u.len() && u[k] == b;
            assert(bares[k] == b);
            assert(bares.contains(b));
        }
    }
}

proof fn lemma_rules_join(
    i: InvView,
    h: Name,
    gs: Seq<KeyedView>,
    c: ConfigView,
    vars: VarsView,
    fl: Floats,
    path: Seq<char>,
    m: int,
    bare: Name,
)
    requires
        i.wf(),
        i.hosts.dom().contains(h),
        all_keyed_groups(i, h, gs, c, vars, fl, path).1 is None,
        0 <= m < gs.len(),
        gives_name(gs[m], c.trailing_separator, vars, fl, bare),
    ensures
        ({
            let name = keyed_name(gs[m].prefix, gs[m].separator, bare, c.leading_separator);
            let j = all_keyed_groups(i, h, gs, c, vars, fl, path).0;
            in_group(j, h, name) && under_parent(j, gs[m], name)
        }),
    decreases gs.len(),
{
    let u = gs.drop_last();
    let g = gs.last();
    let (j, stop) = all_keyed_groups(i, h, u, c, vars, fl, path);
    let k = all_keyed_groups(i, h, gs, c, vars, fl, path).0;
    lemma_all_keyed_groups(i, h, u, c, vars, fl, path);
    let name = keyed_name(gs[m].prefix, gs[m].separator, bare, c.leading_separator);
    if m < u.len() {
        lemma_rules_join(i, h, u, c, vars, fl, path, m, bare);
        assert(u[m] == gs[m]);
        lemma_all_keyed_groups(j, h, seq![g], c, vars, fl, path);
        let none = Seq::<KeyedView>::empty();
        assert(seq![g].drop_last() =~= none);
        assert(all_keyed_groups(j, h, none, c, vars, fl, path) == (
            j,
            None::<Halt>,
        ));
        assert(seq![g].last() == g);
        assert(all_keyed_groups(j, h, seq![g], c, vars, fl, path).0 == k);
        lemma_growing_hosts(j, k, h, name);
        lemma_growing_parent(j, k, gs[m], name);
    } else {
        let v = key_of(g, vars, fl).unwrap();
        let bares = key_names(v, g, c.trailing_separator)->Ok_0;
        let n = choose|n: int| 0 <= n < bares.len() && bares[n] == bare;
        lemma_keyed_joins(j, h, g, bares, c.leading_separator, n);
    }
}

/// Some rule asks for this group.
pub open spec fn named_by_rule(c: ConfigView, gs: Seq<KeyedView>, vars: VarsView, fl: Floats, q: Name) -> bool {
    exists|m: int, b: Name|
        #![trigger gives_name(gs[m], c.trailing_separator, vars, fl, b)]
        0 <= m < gs.len() && gives_name(gs[m], c.trailing_separator, vars, fl, b) && q == keyed_name(
            gs[m].prefix,
            gs[m].separator,
            b,
            c.leading_separator,
        )
}

proof fn lemma_rules_only(
    i: InvView,
    h: Name,
    gs: Seq<KeyedView>,
    c: ConfigView,
    vars: VarsView,
    fl: Floats,
    path: Seq<char>,
    x: Name,
    q: Name,
)
    requires
        i.wf(),
        i.hosts.dom().contains(h),
        in_group(all_keyed_groups(i, h, gs, c, vars, fl, path).0, x, q),
        !in_group(i, x, q),
    ensures
        x == h,
        named_by_rule(c, gs, vars, fl, q),
    decreases gs.len(),
{
    if gs.len() > 0 {
        let u = gs.drop_last();
        let g = gs.last();
        let (j, stop) = all_keyed_groups(i, h, u, c, vars, fl, path);
        lemma_all_keyed_groups(i, h, u, c, vars, fl, path);
        if in_group(j, x, q) {
            lemma_rules_only(i, h, u, c, vars, fl, path, x, q);
            let (m, b) = choose|m: int, b: Name|
                #![trigger gives_name(u[m], c.trailing_separator, vars, fl, b)]
                0 <= m < u.len() && gives_name(u[m], c.trailing_separator, vars, fl, b) && q
                    == keyed_name(u[m].prefix, u[m].separator, b, c.leading_separator);
            assert(u[m] == gs[m]);
            assert(gives_name(gs[m], c.trailing_separator, vars, fl, b));
        } else {
            let v = key_of(g, vars, fl).unwrap();
            let bares = key_names(v, g, c.trailing_separator)->Ok_0;
            lemma_keyed_only(j, h, g, bares, c.leading_separator, x, q);
            let b = choose|b: Name|
                bares.contains(b) && q == #[trigger] keyed_name(
                    g.prefix,
                    g.separator,
                    b,
                    c.leading_separator,
                );
            assert(gs[gs.len() - 1] == g);
            assert(gives_name(gs[gs.len() - 1], c.trailing_separator, vars, fl, b));
        }
    }
}

proof fn lemma_assigned_hosts(i: InvView, h: Name, vs: VarsView, x: Name, g: Name)
    ensures
        in_group(assign(i, h, vs), x, g) <==> in_group(i, x, g),
    decreases vs.len(),
{
    if vs.len() > 0 {
        lemma_assigned_hosts(i, h, vs.drop_last(), x, g);
    }
}

// ---------------------------------------------------------------------------------------
// One host
// ---------------------------------------------------------------------------------------

/// A host joins the group of every condition that holds of it, wherever the condition stands
/// in the configuration, and the groups of every rule whose key it has; and a rule's parent
/// gets the rule's groups as children.
pub proof fn law_host_joins(
    i: InvView,
    h: Name,
    c: ConfigView,
    fl: Floats,
    path: Seq<char>,
    m: int,
    bare: Name,
)
    requires
        i.wf(),
        i.hosts.dom().contains(h),
        construct_host(i, h, c, fl, path).1 is None,
    ensures
        0 <= m < c.groups.len() && holds_true(c.groups[m].1, seen_vars(i, h, c, fl, path), fl)
            ==> in_group(construct_host(i, h, c, fl, path).0, h, safe_name(c.groups[m].0)),
        0 <= m < c.keyed_groups.len() && gives_name(
            c.keyed_groups[m],
            c.trailing_separator,
            seen_vars(i, h, c, fl, path),
            fl,
            bare,
        ) ==> {
            let g = c.keyed_groups[m];
            let name = keyed_name(g.prefix, g.separator, bare, c.leading_separator);
            let j = construct_host(i, h, c, fl, path).0;
            in_group(j, h, name) && under_parent(j, g, name)
        },
{
    let vs = compositions(c.compose, resolved_inline(i, h), c.strict, fl, path)->Ok_0;
    let j = assign(i, h, vs);
    lemma_assign(i, h, vs);
    let vars = resolved_inline(j, h);
    let (k, stop) = conditional_groups(j, h, c.groups, vars, fl, path);
    lemma_conditional_groups(j, h, c.groups, vars, fl, path);
    lemma_all_keyed_groups(k, h, c.keyed_groups, c, vars, fl, path);
    let end = construct_host(i, h, c, fl, path).0;
    if 0 <= m < c.groups.len() && holds_true(c.groups[m].1, vars, fl) {
        lemma_conditions(j, h, c.groups, vars, fl, path, m);
        lemma_growing_hosts(k, end, h, safe_name(c.groups[m].0));
    }
    if 0 <= m < c.keyed_groups.len() && gives_name(
        c.keyed_groups[m],
        c.trailing_separator,
        vars,
        fl,
        bare,
    ) {
        lemma_rules_join(k, h, c.keyed_groups, c, vars, fl, path, m, bare);
    }
}

/// A host joins no other group, and no other host joins any: a membership that was not there
/// before is the host's, in a group that one of its conditions or one of its keys asks for.
pub proof fn law_host_joins_nothing_else(
    i: InvView,
    h: Name,
    c: ConfigView,
    fl: Floats,
    path: Seq<char>,
    x: Name,
    g: Name,
)
    requires
        i.wf(),
        i.hosts.dom().contains(h),
        in_group(construct_host(i, h, c, fl, path).0, x, g),
        !in_group(i, x, g),
    ensures
        x == h,
        asked_for(c.groups, seen_vars(i, h, c, fl, path), fl, g) || named_by_rule(
            c,
            c.keyed_groups,
            seen_vars(i, h, c, fl, path),
            fl,
            g,
        ),
{
    let vs = compositions(c.compose, resolved_inline(i, h), c.strict, fl, path)->Ok_0;
    let j = assign(i, h, vs);
    lemma_assign(i, h, vs);
    lemma_assigned_hosts(i, h, vs, x, g);
    let vars = resolved_inline(j, h);
    let (k, stop) = conditional_groups(j, h, c.groups, vars, fl, path);
    lemma_conditional_groups(j, h, c.groups, vars, fl, path);
    if in_group(k, x, g) {
        lemma_conditions_only(j, h, c.groups, vars, fl, path, x, g);
    } else {
        lemma_rules_only(k, h, c.keyed_groups, c, vars, fl, path, x, g);
    }
}

// ---------------------------------------------------------------------------------------
// All hosts
// ---------------------------------------------------------------------------------------

/// The inventory when the host at a position gets its turn.
pub open spec fn at_turn(i: InvView, c: ConfigView, fl: Floats, path: Seq<char>, n: int) -> InvView {
    construct_hosts(i, i.host_order.take(n), c, fl, path).0
}

proof fn lemma_turns(
    i: InvView,
    hs: Seq<Name>,
    c: ConfigView,
    fl: Floats,
    path: Seq<char>,
    n: int,
)
    requires
        i.wf(),
        all_hosts(i, hs),
        construct_hosts(i, hs, c, fl, path).1 is None,
        0 <= n < hs.len(),
    ensures
        ({
            let j = construct_hosts(i, hs.take(n), c, fl, path).0;
            &&& joins(i, j)
            &&& j.hosts.dom().contains(hs[n])
            &&& construct_host(j, hs[n], c, fl, path).1 is None
            &&& joins(
                construct_host(j, hs[n], c, fl, path).0,
                construct_hosts(i, hs, c, fl, path).0,
            )
        }),
    decreases hs.len(),
{
    let u = hs.drop_last();
    assert forall|k: Name| #[trigger] u.contains(k) implies i.hosts.dom().contains(k) by {
        let n = choose|n: int| 0 <= n < u.len() && u[n] == k;
        assert(hs.contains(hs[n]));
    }
    lemma_construct_hosts(i, u, c, fl, path);
    let (j, stop) = construct_hosts(i, u, c, fl, path);
    assert(hs.contains(hs[hs.len() - 1]));
    lemma_construct_host(j, hs.last(), c, fl, path);
    let end = construct_hosts(i, hs, c, fl, path).0;
    if n == hs.len() - 1 {
        assert(hs.take(n) =~= u);
        lemma_grows(end, end, end);
    } else {
        lemma_turns(i, u, c, fl, path, n);
        assert(hs.take(n) =~= u.take(n));
        let a = construct_hosts(i, hs.take(n), c, fl, path).0;
        lemma_joins(construct_host(a, hs[n], c, fl, path).0, j, end);
    }
}

/// Every host joins the group of every condition that holds of it, and the groups that its
/// keys name. After a construction that does not stop, each host is among the hosts of the
/// group of every entry of `groups` whose condition has a true value over the host's
/// variables; and of the group of every rule and every part that the rule's key gives, which
/// stands under the rule's parent.
pub proof fn law_construction_fills_groups(
    i: InvView,
    v: ValueView,
    c: ConfigView,
    fl: Floats,
    path: Seq<char>,
    n: int,
    m: int,
    bare: Name,
)
    requires
        i.wf(),
        config_of(v) == Ok::<ConfigView, Seq<char>>(c),
        constructed(i, v, fl, path).1 is None,
        0 <= n < i.host_order.len(),
    ensures
        ({
            let h = i.host_order[n];
            let end = constructed(i, v, fl, path).0;
            let vars = seen_vars(at_turn(i, c, fl, path, n), h, c, fl, path);
            &&& 0 <= m < c.groups.len() && holds_true(c.groups[m].1, vars, fl) ==> in_group(
                end,
                h,
                safe_name(c.groups[m].0),
            )
            &&& 0 <= m < c.keyed_groups.len() && gives_name(
                c.keyed_groups[m],
                c.trailing_separator,
                vars,
                fl,
                bare,
            ) ==> {
                let g = c.keyed_groups[m];
                let name = keyed_name(g.prefix, g.separator, bare, c.leading_separator);
                in_group(end, h, name) && under_parent(end, g, name)
            }
        }),
{
    let hs = i.host_order;
    let h = hs[n];
    assert(all_hosts(i, hs));
    lemma_turns(i, hs, c, fl, path, n);
    let j = at_turn(i, c, fl, path, n);
    law_host_joins(j, h, c, fl, path, m, bare);
    let (a, end) = (construct_host(j, h, c, fl, path).0, constructed(i, v, fl, path).0);
    let vars = seen_vars(j, h, c, fl, path);
    if 0 <= m < c.groups.len() && holds_true(c.groups[m].1, vars, fl) {
        lemma_growing_hosts(a, end, h, safe_name(c.groups[m].0));
    }
    if 0 <= m < c.keyed_groups.len() && gives_name(
        c.keyed_groups[m],
        c.trailing_separator,
        vars,
        fl,
        bare,
    ) {
        let g = c.keyed_groups[m];
        let name = keyed_name(g.prefix, g.separator, bare, c.leading_separator);
        lemma_growing_hosts(a, end, h, name);
        lemma_growing_parent(a, end, g, name);
    }
}

// ---------------------------------------------------------------------------------------
// Names of keyed groups
// ---------------------------------------------------------------------------------------

/// What a key gives to the names of groups: a text itself, an integer in decimal, a list each
/// of its items in order; what is not true the default, or nothing more than the separator
/// where that is wanted; a dict cannot be a key.
pub proof fn law_key_names(g: KeyedView, trailing: bool, s: Seq<char>, i: int, ts: Seq<Seq<char>>, v: ValueView, o: VarsView)
    ensures
        s.len() > 0 ==> key_names(ValueView::Text(s), g, trailing) == Ok::<Seq<Name>, Seq<char>>(
            seq![s],
        ),
        i != 0 ==> key_names(ValueView::Int(i), g, trailing) == Ok::<Seq<Name>, Seq<char>>(
            seq![dec(i)],
        ),
        key_names(ValueView::Bool(true), g, trailing) == Ok::<Seq<Name>, Seq<char>>(
            seq!["True"@],
        ),
        ts.len() > 0 ==> key_names(
            ValueView::List(Seq::new(ts.len(), |k: int| ValueView::Text(ts[k]))),
            g,
            trailing,
        ) == Ok::<Seq<Name>, Seq<char>>(ts),
        o.len() > 0 ==> key_names(ValueView::Dict(o), g, trailing) is Err,
        !is_true(v) ==> key_names(v, g, trailing) == Ok::<Seq<Name>, Seq<char>>(
            match g.default_value {
                Some(d) => seq![d],
                None => if trailing {
                    seq![Seq::empty()]
                } else {
                    Seq::empty()
                },
            },
        ),
{
    let a = Seq::new(ts.len(), |k: int| ValueView::Text(ts[k]));
    lemma_text_items(ts, a, a.len());
    assert(ts.take(a.len() as int) =~= ts);
}

proof fn lemma_text_items(ts: Seq<Seq<char>>, a: Seq<ValueView>, n: nat)
    requires
        a.len() == ts.len(),
        n <= a.len(),
        forall|k: int| 0 <= k < a.len() ==> #[trigger] a[k] == ValueView::Text(ts[k]),
    ensures
        item_names(a, n) == Ok::<Seq<Name>, Seq<char>>(ts.take(n as int)),
    decreases n,
{
    if n > 0 {
        lemma_text_items(ts, a, (n - 1) as nat);
        assert(a[n - 1] == ValueView::Text(ts[n - 1]));
        assert(ts.take(n as int) =~= ts.take(n - 1).push(ts[n - 1]));
    } else {
        assert(ts.take(0) =~= Seq::empty());
    }
}

/// The name of a keyed group is the prefix, the separator and the part, sanitized; without a
/// prefix the separator stands where a leading one is wanted.
pub proof fn law_keyed_names(prefix: Seq<char>, separator: Seq<char>, bare: Name, leading: bool)
    ensures
        keyed_name(prefix, separator, bare, true) == safe_name(prefix + separator + bare),
        prefix.len() > 0 ==> keyed_name(prefix, separator, bare, leading) == safe_name(
            prefix + separator + bare,
        ),
        keyed_name(Seq::empty(), separator, bare, false) == safe_name(bare),
{
    let none = Seq::<char>::empty();
    assert(none + none + bare =~= bare);
}

// ---------------------------------------------------------------------------------------
// Configurations
// ---------------------------------------------------------------------------------------

/// Expressions that are written as texts, by the entries of a map.
pub open spec fn text_entries(m: VarsView) -> bool {
    forall|k: int| 0 <= k < m.len() ==> (#[trigger] m[k]).1 is Text
}

proof fn lemma_text_entries(m: VarsView, n: nat)
    requires
        n <= m.len(),
        text_entries(m),
    ensures
        expressions(m, n) == Ok::<Exprs, Seq<char>>(
            Seq::new(n, |k: int| (m[k].0, m[k].1->Text_0)),
        ),
    decreases n,
{
    if n > 0 {
        lemma_text_entries(m, (n - 1) as nat);
        assert(m[n - 1].1 is Text);
        assert(Seq::new(n, |k: int| (m[k].0, m[k].1->Text_0)) =~= Seq::new(
            (n - 1) as nat,
            |k: int| (m[k].0, m[k].1->Text_0),
        ).push((m[n - 1].0, m[n - 1].1->Text_0)));
    } else {
        assert(Seq::new(n, |k: int| (m[k].0, m[k].1->Text_0)) =~= Seq::empty());
    }
}

/// A field of the first fields of a configuration.
proof fn lemma_config_prefix(o: VarsView, n: nat, name: Name)
    requires
        distinct(o),
        n <= o.len(),
        config_fields(o, n) is Ok,
        name == "compose"@ || name == "groups"@ || name == "keyed_groups"@ || name == "strict"@
            || name == "leading_separator"@ || name == "trailing_separator"@,
    ensures
        ({
            let c = config_fields(o, n)->Ok_0;
            let before = pos(o, name) < n;
            let v = o[pos(o, name)].1;
            &&& name == "compose"@ ==> (if before {
                expr_map(v) == Ok::<Exprs, Seq<char>>(c.compose)
            } else {
                c.compose == Exprs::empty()
            })
            &&& name == "groups"@ ==> (if before {
                expr_map(v) == Ok::<Exprs, Seq<char>>(c.groups)
            } else {
                c.groups == Exprs::empty()
            })
            &&& name == "keyed_groups"@ ==> (if before {
                rule_list(v) == Ok::<Seq<KeyedView>, Seq<char>>(c.keyed_groups)
            } else {
                c.keyed_groups == Seq::<KeyedView>::empty()
            })
            &&& name == "strict"@ ==> (if before {
                v == ValueView::Bool(c.strict)
            } else {
                !c.strict
            })
            &&& name == "leading_separator"@ ==> (if before {
                v == ValueView::Bool(c.leading_separator)
            } else {
                c.leading_separator
            })
            &&& name == "trailing_separator"@ ==> (if before {
                v == ValueView::Bool(c.trailing_separator)
            } else {
                c.trailing_separator
            })
        }),
    decreases n,
{
    reveal_strlit("compose");
    reveal_strlit("keyed_groups");
    reveal_strlit("groups");
    reveal_strlit("strict");
    reveal_strlit("leading_separator");
    reveal_strlit("trailing_separator");
    assert("groups"@[0] == 'g' && "compose"@[0] == 'c' && "keyed_groups"@[0] == 'k' && "strict"@[0]
        == 's' && "leading_separator"@[0] == 'l' && "trailing_separator"@[0] == 't');
    lemma_pos(o, name);
    if n > 0 {
        lemma_config_prefix(o, (n - 1) as nat, name);
        if o[n - 1].0 == name {
            lemma_pos_unique(o, name, n - 1);
        }
    }
}

/// What a configuration says. Its `groups` and `compose` are the entries of the maps under
/// these names, every one and in order, with the expressions as they are written; what is
/// left out is empty; a computed value need not be there unless `strict` says so, and both
/// separators are wanted unless said otherwise.
pub proof fn law_configuration(o: VarsView, m: VarsView, k: int)
    requires
        distinct(o),
        config_of(ValueView::Dict(o)) is Ok,
        text_entries(m),
    ensures
        ({
            let c = config_of(ValueView::Dict(o))->Ok_0;
            &&& get(o, "groups"@) == Some(ValueView::Dict(m)) ==> c.groups.len() == m.len() && (0 <= k
                < m.len() ==> c.groups[k].0 == m[k].0 && m[k].1 == ValueView::Text(c.groups[k].1))
            &&& get(o, "compose"@) == Some(ValueView::Dict(m)) ==> c.compose.len() == m.len() && (0
                <= k < m.len() ==> c.compose[k].0 == m[k].0 && m[k].1 == ValueView::Text(
                c.compose[k].1,
            ))
            &&& get(o, "groups"@) is None ==> c.groups.len() == 0
            &&& get(o, "compose"@) is None ==> c.compose.len() == 0
            &&& get(o, "keyed_groups"@) is None ==> c.keyed_groups.len() == 0
            &&& c.strict == (get(o, "strict"@) == Some(ValueView::Bool(true)))
            &&& c.leading_separator == (get(o, "leading_separator"@) != Some(ValueView::Bool(false)))
            &&& c.trailing_separator == (get(o, "trailing_separator"@) != Some(
                ValueView::Bool(false),
            ))
        }),
{
    let n = o.len();
    lemma_config_prefix(o, n, "groups"@);
    lemma_config_prefix(o, n, "compose"@);
    lemma_config_prefix(o, n, "keyed_groups"@);
    lemma_config_prefix(o, n, "strict"@);
    lemma_config_prefix(o, n, "leading_separator"@);
    lemma_config_prefix(o, n, "trailing_separator"@);
    lemma_pos(o, "groups"@);
    lemma_pos(o, "compose"@);
    lemma_pos(o, "keyed_groups"@);
    lemma_pos(o, "strict"@);
    lemma_pos(o, "leading_separator"@);
    lemma_pos(o, "trailing_separator"@);
    lemma_text_entries(m, m.len());
}

/// A field of the first fields of a rule.
proof fn lemma_rule_prefix(o: VarsView, n: nat, name: Name)
    requires
        distinct(o),
        n <= o.len(),
        rule_fields(o, n) is Ok,
        name == "key"@ || name == "prefix"@ || name == "separator"@ || name == "default_value"@ || name
            == "parent_group"@,
    ensures
        ({
            let (g, keyed) = rule_fields(o, n)->Ok_0;
            let before = pos(o, name) < n;
            let v = o[pos(o, name)].1;
            &&& name == "key"@ ==> keyed == before && (before ==> v == ValueView::Text(g.key))
            &&& name == "prefix"@ ==> (if before {
                v == ValueView::Text(g.prefix)
            } else {
                g.prefix == Seq::<char>::empty()
            })
            &&& name == "separator"@ ==> (if before {
                v == ValueView::Text(g.separator)
            } else {
                g.separator == "_"@
            })
            &&& name == "default_value"@ ==> g.default_value == (if before && v is Text {
                Some(v->Text_0)
            } else {
                None
            })
            &&& name == "parent_group"@ ==> g.parent_group == (if before && v is Text {
                Some(v->Text_0)
            } else {
                None
            })
        }),
    decreases n,
{
    reveal_strlit("key");
    reveal_strlit("prefix");
    reveal_strlit("separator");
    reveal_strlit("default_value");
    reveal_strlit("parent_group");
    assert("key"@.len() == 3 && "prefix"@.len() == 6 && "separator"@.len() == 9
        && "default_value"@.len() == 13 && "parent_group"@.len() == 12);
    lemma_pos(o, name);
    if n > 0 {
        lemma_rule_prefix(o, (n - 1) as nat, name);
        if o[n - 1].0 == name {
            lemma_pos_unique(o, name, n - 1);
        }
    }
}

/// What a rule says: its key, its prefix, its separator (an underscore where none is given),
/// its default and its parent are the texts under these names.
pub proof fn law_rule(o: VarsView)
    requires
        distinct(o),
        keyed_rule(ValueView::Dict(o)) is Ok,
    ensures
        ({
            let g = keyed_rule(ValueView::Dict(o))->Ok_0;
            &&& get(o, "key"@) == Some(ValueView::Text(g.key))
            &&& match get(o, "prefix"@) {
                Some(v) => v == ValueView::Text(g.prefix),
                None => g.prefix.len() == 0,
            }
            &&& match get(o, "separator"@) {
                Some(v) => v == ValueView::Text(g.separator),
                None => g.separator == "_"@,
            }
            &&& g.default_value == (match get(o, "default_value"@) {
                Some(ValueView::Text(d)) => Some(d),
                _ => None,
            })
            &&& g.parent_group == (match get(o, "parent_group"@) {
                Some(ValueView::Text(d)) => Some(d),
                _ => None,
            })
        }),
{
    let n = o.len();
    lemma_rule_prefix(o, n, "key"@);
    lemma_rule_prefix(o, n, "prefix"@);
    lemma_rule_prefix(o, n, "separator"@);
    lemma_rule_prefix(o, n, "default_value"@);
    lemma_rule_prefix(o, n, "parent_group"@);
    lemma_pos(o, "key"@);
    lemma_pos(o, "prefix"@);
    lemma_pos(o, "separator"@);
    lemma_pos(o, "default_value"@);
    lemma_pos(o, "parent_group"@);
}

proof fn lemma_rules_prefix(a: Seq<ValueView>, n: nat, k: int)
    requires
        n <= a.len(),
        rules_of(a, n) is Ok,
        0 <= k < n,
    ensures
        rules_of(a, n)->Ok_0.len() == n,
        keyed_rule(a[k]) == Ok::<KeyedView, Seq<char>>(rules_of(a, n)->Ok_0[k]),
    decreases n,
{
    if n > 1 {
        lemma_rules_prefix(a, (n - 1) as nat, if k < n - 1 { k } else { 0 });
    } else {
        assert(rules_of(a, 0) == Ok::<Seq<KeyedView>, Seq<char>>(Seq::empty()));
    }
}

/// The rules of a configuration are the items of the list under `keyed_groups`, every one
/// and in order.
pub proof fn law_rules(o: VarsView, a: Seq<ValueView>, k: int)
    requires
        distinct(o),
        config_of(ValueView::Dict(o)) is Ok,
        get(o, "keyed_groups"@) == Some(ValueView::List(a)),
        0 <= k < a.len(),
    ensures
        config_of(ValueView::Dict(o))->Ok_0.keyed_groups.len() == a.len(),
        keyed_rule(a[k]) == Ok::<KeyedView, Seq<char>>(
            config_of(ValueView::Dict(o))->Ok_0.keyed_groups[k],
        ),
{
    lemma_config_prefix(o, o.len(), "keyed_groups"@);
    lemma_pos(o, "keyed_groups"@);
    lemma_rules_prefix(a, a.len(), k);
}

// ---------------------------------------------------------------------------------------
// Composed variables
// ---------------------------------------------------------------------------------------

/// Every host of `i` has its variables in `j`.
spec fn same_vars(i: InvView, j: InvView) -> bool {
    forall|x: Name| #[trigger]
        i.hosts.dom().contains(x) ==> j.hosts.dom().contains(x) && j.hosts[x].vars
            == i.hosts[x].vars
}

proof fn lemma_join_keeps_vars(i: InvView, h: Name, raw: Name)
    requires
        i.hosts.dom().contains(h),
    ensures
        same_vars(i, i.add_group(raw).add_host_to_group(h, safe_name(raw))),
{
}

proof fn lemma_conditions_keep_vars(
    i: InvView,
    h: Name,
    es: Exprs,
    vars: VarsView,
    fl: Floats,
    path: Seq<char>,
)
    requires
        i.hosts.dom().contains(h),
    ensures
        same_vars(i, conditional_groups(i, h, es, vars, fl, path).0),
    decreases es.len(),
{
    if es.len() > 0 {
        lemma_conditions_keep_vars(i, h, es.drop_last(), vars, fl, path);
        let j = conditional_groups(i, h, es.drop_last(), vars, fl, path).0;
        lemma_join_keeps_vars(j, h, es.last().0);
    }
}

proof fn lemma_keyed_keep_vars(i: InvView, h: Name, g: KeyedView, bares: Seq<Name>, leading: bool)
    requires
        i.hosts.dom().contains(h),
    ensures
        same_vars(i, join_all_keyed(i, h, g, bares, leading)),
    decreases bares.len(),
{
    if bares.len() > 0 {
        lemma_keyed_keep_vars(i, h, g, bares.drop_last(), leading);
        let j = join_all_keyed(i, h, g, bares.drop_last(), leading);
        let name = keyed_name(g.prefix, g.separator, bares.last(), leading);
        lemma_keyed_safe(g, bares.last(), leading);
        lemma_join_keeps_vars(j, h, name);
        let a = j.add_group(name).add_host_to_group(h, name);
        if let Some(p) = g.parent_group {
            assert(join_keyed(j, h, g, bares.last(), leading).hosts == a.hosts);
        }
    }
}

proof fn lemma_rules_keep_vars(
    i: InvView,
    h: Name,
    gs: Seq<KeyedView>,
    c: ConfigView,
    vars: VarsView,
    fl: Floats,
    path: Seq<char>,
)
    requires
        i.hosts.dom().contains(h),
    ensures
        same_vars(i, all_keyed_groups(i, h, gs, c, vars, fl, path).0),
    decreases gs.len(),
{
    if gs.len() > 0 {
        lemma_rules_keep_vars(i, h, gs.drop_last(), c, vars, fl, path);
        let (j, stop) = all_keyed_groups(i, h, gs.drop_last(), c, vars, fl, path);
        let g = gs.last();
        if let Some(v) = key_of(g, vars, fl) {
            if let Ok(bares) = key_names(v, g, c.trailing_separator) {
                lemma_keyed_keep_vars(j, h, g, bares, c.leading_separator);
            }
        }
    }
}

proof fn lemma_assign_others(i: InvView, h: Name, vs: VarsView, x: Name)
    requires
        i.hosts.dom().contains(h),
        i.hosts.dom().contains(x),
        x != h,
    ensures
        assign(i, h, vs).hosts.dom() == i.hosts.dom(),
        assign(i, h, vs).hosts[x].vars == i.hosts[x].vars,
    decreases vs.len(),
{
    if vs.len() > 0 {
        lemma_assign_others(i, h, vs.drop_last(), x);
        assert(assign(i, h, vs).hosts.dom() =~= i.hosts.dom());
    }
}

/// A host's turn sets the variables of `compose`, and no variable of another host.
proof fn lemma_turn_vars(
    i: InvView,
    h: Name,
    c: ConfigView,
    fl: Floats,
    path: Seq<char>,
    x: Name,
    k: Name,
)
    requires
        i.hosts.dom().contains(h),
        i.hosts.dom().contains(x),
        distinct(c.compose),
        construct_host(i, h, c, fl, path).1 is None,
    ensures
        construct_host(i, h, c, fl, path).0.hosts.dom().contains(x),
        x != h ==> construct_host(i, h, c, fl, path).0.hosts[x].vars == i.hosts[x].vars,
        ({
            let now = get(construct_host(i, h, c, fl, path).0.hosts[h].vars, k);
            let before = get(i.hosts[h].vars, k);
            match get(c.compose, k) {
                Some(src) => match composed(src, resolved_inline(i, h), c.strict, fl) {
                    Ok(Some(v)) => now == Some(v),
                    Ok(None) => now == before,
                    Err(_) => false,
                },
                None => now == before,
            }
        }),
{
    law_compose_sees_a_snapshot(i, h, c.compose, c.strict, fl, path, k);
    let vs = compositions(c.compose, resolved_inline(i, h), c.strict, fl, path)->Ok_0;
    let j = assign(i, h, vs);
    lemma_assign_hosts(i, h, vs);
    if x != h {
        lemma_assign_others(i, h, vs, x);
    }
    let vars = resolved_inline(j, h);
    let m = conditional_groups(j, h, c.groups, vars, fl, path).0;
    lemma_conditions_keep_vars(j, h, c.groups, vars, fl, path);
    assert(j.hosts.dom().contains(h));
    assert(m.hosts.dom().contains(h));
    lemma_rules_keep_vars(m, h, c.keyed_groups, c, vars, fl, path);
    assert(j.hosts.dom().contains(x));
    assert(m.hosts.dom().contains(x));
}

proof fn lemma_assign_hosts(i: InvView, h: Name, vs: VarsView)
    requires
        i.hosts.dom().contains(h),
    ensures
        assign(i, h, vs).hosts.dom() == i.hosts.dom(),
    decreases vs.len(),
{
    if vs.len() > 0 {
        lemma_assign_hosts(i, h, vs.drop_last());
        assert(assign(i, h, vs).hosts.dom() =~= i.hosts.dom());
    }
}

proof fn lemma_vars_at_end(
    i: InvView,
    hs: Seq<Name>,
    c: ConfigView,
    fl: Floats,
    path: Seq<char>,
    n: int,
    k: Name,
)
    requires
        i.wf(),
        all_hosts(i, hs),
        hs.no_duplicates(),
        distinct(c.compose),
        construct_hosts(i, hs, c, fl, path).1 is None,
        0 <= n < hs.len(),
    ensures
        ({
            let j = construct_hosts(i, hs.take(n), c, fl, path).0;
            let end = construct_hosts(i, hs, c, fl, path).0;
            &&& end.hosts.dom().contains(hs[n])
            &&& end.hosts[hs[n]].vars == construct_host(j, hs[n], c, fl, path).0.hosts[hs[n]].vars
            &&& j.hosts[hs[n]].vars == i.hosts[hs[n]].vars
        }),
    decreases hs.len(),
{
    let u = hs.drop_last();
    assert forall|k: Name| #[trigger] u.contains(k) implies i.hosts.dom().contains(k) by {
        let n = choose|n: int| 0 <= n < u.len() && u[n] == k;
        assert(hs.contains(hs[n]));
    }
    lemma_construct_hosts(i, u, c, fl, path);
    let (j, stop) = construct_hosts(i, u, c, fl, path);
    let last = hs.last();
    assert(hs.contains(hs[hs.len() - 1]));
    assert(hs.contains(hs[n]));
    lemma_construct_host(j, last, c, fl, path);
    if n == hs.len() - 1 {
        assert(hs.take(n) =~= u);
        lemma_untouched(i, u, c, fl, path, last);
    } else {
        lemma_vars_at_end(i, u, c, fl, path, n, k);
        assert(hs.take(n) =~= u.take(n));
        lemma_turn_vars(j, last, c, fl, path, hs[n], k);
    }
}

/// The turns of other hosts set no variable of a host.
proof fn lemma_untouched(
    i: InvView,
    hs: Seq<Name>,
    c: ConfigView,
    fl: Floats,
    path: Seq<char>,
    x: Name,
)
    requires
        i.wf(),
        all_hosts(i, hs),
        !hs.contains(x),
        i.hosts.dom().contains(x),
        distinct(c.compose),
        construct_hosts(i, hs, c, fl, path).1 is None,
    ensures
        construct_hosts(i, hs, c, fl, path).0.hosts[x].vars == i.hosts[x].vars,
    decreases hs.len(),
{
    if hs.len() > 0 {
        let u = hs.drop_last();
        assert forall|k: Name| #[trigger] u.contains(k) implies hs.contains(k) by {
            let n = choose|n: int| 0 <= n < u.len() && u[n] == k;
            assert(hs[n] == k);
        }
        assert forall|k: Name| #[trigger] u.contains(k) implies i.hosts.dom().contains(k) by {
            assert(hs.contains(k));
        }
        lemma_construct_hosts(i, u, c, fl, path);
        lemma_untouched(i, u, c, fl, path, x);
        let j = construct_hosts(i, u, c, fl, path).0;
        assert(hs.contains(hs[hs.len() - 1]));
        lemma_turn_vars(j, hs.last(), c, fl, path, x, x);
    }
}

/// Composed variables. After a construction that does not stop, a host's variable has the
/// value of the `compose` expression of that name over the variables that the host had when
/// its turn came; where the expression has no value, or there is none of that name, it has
/// the value that it had before the construction.
pub proof fn law_construction_composes(
    i: InvView,
    v: ValueView,
    c: ConfigView,
    fl: Floats,
    path: Seq<char>,
    n: int,
    k: Name,
)
    requires
        i.wf(),
        config_of(v) == Ok::<ConfigView, Seq<char>>(c),
        distinct(c.compose),
        constructed(i, v, fl, path).1 is None,
        0 <= n < i.host_order.len(),
    ensures
        ({
            let h = i.host_order[n];
            let now = get(constructed(i, v, fl, path).0.hosts[h].vars, k);
            let before = get(i.hosts[h].vars, k);
            match get(c.compose, k) {
                Some(src) => match composed(
                    src,
                    resolved_inline(at_turn(i, c, fl, path, n), h),
                    c.strict,
                    fl,
                ) {
                    Ok(Some(x)) => now == Some(x),
                    Ok(None) => now == before,
                    Err(_) => false,
                },
                None => now == before,
            }
        }),
{
    let hs = i.host_order;
    assert(all_hosts(i, hs));
    lemma_turns(i, hs, c, fl, path, n);
    lemma_vars_at_end(i, hs, c, fl, path, n, k);
    lemma_turn_vars(at_turn(i, c, fl, path, n), hs[n], c, fl, path, hs[n], k);
}

} // verus!
