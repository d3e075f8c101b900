//! Which configurations of constructed inventories are accepted, what they say, and what
//! stops a construction.

use vstd::prelude::*;
use crate::assoc::{get, Name};
use crate::constructed::{all_keyed_groups, compositions, conditional_groups, config_fields, config_of, expr_map, expressions, item_names, key_names, keyed_groups, keyed_rule, names_plugin, rule_fields, rule_list, rules_of, ConfigView, Exprs, KeyedView};
use crate::expr::{composed, evaluated, lenient};
use crate::expr::number::Floats;
use crate::model::InvView;
use crate::text::dec;
use crate::value::{ValueView, VarsView};

verus! {

// ---------------------------------------------------------------------------------------
// What is accepted
// ---------------------------------------------------------------------------------------

/// A value that is no list and no map.
pub open spec fn is_scalar(v: ValueView) -> bool {
    !(v is List) && !(v is Dict)
}

/// A map of expressions: every entry is a scalar.
pub open spec fn is_expr_map(v: ValueView) -> bool {
    v is Dict && forall|k: int| 0 <= k < v->Dict_0.len() ==> is_scalar((#[trigger] v->Dict_0[k]).1)
}

/// A field of a rule is of its kind: a text, or nothing where it may be left out; what is no
/// field may be anything.
pub open spec fn is_rule_field(n: Name, v: ValueView) -> bool {
    &&& n == "key"@ || n == "prefix"@ || n == "separator"@ ==> v is Text
    &&& n == "default_value"@ || n == "parent_group"@ ==> v is Text || v is Null
}

/// A map that is a rule: its fields are of their kinds, and there is a key.
pub open spec fn is_rule_map(o: VarsView) -> bool {
    &&& forall|k: int| 0 <= k < o.len() ==> is_rule_field((#[trigger] o[k]).0, o[k].1)
    &&& exists|k: int| 0 <= k < o.len() && (#[trigger] o[k]).0 == "key"@
}

/// The fields of a rule have different names.
proof fn lemma_rule_names()
    ensures
        "key"@ != "prefix"@,
        "key"@ != "separator"@,
        "key"@ != "default_value"@,
        "key"@ != "parent_group"@,
        "prefix"@ != "separator"@,
        "prefix"@ != "default_value"@,
        "prefix"@ != "parent_group"@,
        "separator"@ != "default_value"@,
        "separator"@ != "parent_group"@,
        "default_value"@ != "parent_group"@,
{
    reveal_strlit("key");
    reveal_strlit("prefix");
    reveal_strlit("separator");
    reveal_strlit("default_value");
    reveal_strlit("parent_group");
    assert("key"@.len() == 3 && "prefix"@.len() == 6 && "separator"@.len() == 9
        && "default_value"@.len() == 13 && "parent_group"@.len() == 12);
}

proof fn lemma_rule_fields(o: VarsView, n: nat)
    requires
        n <= o.len(),
    ensures
        rule_fields(o, n) is Ok <==> forall|k: int|
            0 <= k < n ==> is_rule_field((#[trigger] o[k]).0, o[k].1),
        rule_fields(o, n) is Ok ==> (rule_fields(o, n)->Ok_0.1 <==> exists|k: int|
            0 <= k < n && (#[trigger] o[k]).0 == "key"@),
    decreases n,
{
    lemma_rule_names();
    if n > 0 {
        let m = (n - 1) as nat;
        lemma_rule_fields(o, m);
        let e = o[n - 1];
        if rule_fields(o, n) is Ok {
            assert forall|k: int| 0 <= k < n implies is_rule_field((#[trigger] o[k]).0, o[k].1) by {
                if k < m {
                    assert(is_rule_field(o[k].0, o[k].1));
                }
            }
            if rule_fields(o, n)->Ok_0.1 && e.0 != "key"@ {
                let k = choose|k: int| 0 <= k < m && (#[trigger] o[k]).0 == "key"@;
                assert(o[k].0 == "key"@);
            }
            if exists|k: int| 0 <= k < n && (#[trigger] o[k]).0 == "key"@ {
                let k = choose|k: int| 0 <= k < n && (#[trigger] o[k]).0 == "key"@;
                if k < m {
                    assert(o[k].0 == "key"@);
                }
            }
        }
        if forall|k: int| 0 <= k < n ==> is_rule_field((#[trigger] o[k]).0, o[k].1) {
            assert(is_rule_field(e.0, e.1));
        }
    }
}

/// A map is accepted as a rule if and only if its fields are of their kinds and it has a
/// key.
pub proof fn law_accepted_rules(o: VarsView)
    ensures
        keyed_rule(ValueView::Dict(o)) is Ok <==> is_rule_map(o),
{
    lemma_rule_fields(o, o.len());
}

/// A list is accepted as rules if and only if each of its items is.
pub proof fn law_accepted_rule_lists(a: Seq<ValueView>)
    ensures
        rule_list(ValueView::List(a)) is Ok <==> forall|k: int|
            0 <= k < a.len() ==> keyed_rule(#[trigger] a[k]) is Ok,
{
    lemma_rule_items(a, a.len());
}

proof fn lemma_rule_items(a: Seq<ValueView>, n: nat)
    requires
        n <= a.len(),
    ensures
        rules_of(a, n) is Ok <==> forall|k: int| 0 <= k < n ==> keyed_rule(#[trigger] a[k]) is Ok,
    decreases n,
{
    if n > 0 {
        let m = (n - 1) as nat;
        lemma_rule_items(a, m);
        if rules_of(a, n) is Ok {
            assert forall|k: int| 0 <= k < n implies keyed_rule(#[trigger] a[k]) is Ok by {
                if k < m {
                    assert(keyed_rule(a[k]) is Ok);
                }
            }
        }
        if forall|k: int| 0 <= k < n ==> keyed_rule(#[trigger] a[k]) is Ok {
            assert(keyed_rule(a[n - 1]) is Ok);
        }
    }
}

/// Expressions are accepted where each is a scalar: a text stands for itself, and any other
/// scalar for what it is in Python.
pub proof fn law_accepted_expressions(v: ValueView, k: int)
    ensures
        expr_map(v) is Ok <==> is_expr_map(v),
        is_expr_map(v) && 0 <= k < v->Dict_0.len() ==> ({
            let (n, x) = v->Dict_0[k];
            let es = expr_map(v)->Ok_0;
            &&& es.len() == v->Dict_0.len()
            &&& es[k].0 == n
            &&& x matches ValueView::Text(s) ==> es[k].1 == s
            &&& x matches ValueView::Int(i) ==> es[k].1 == dec(i)
            &&& x matches ValueView::Float(t) ==> es[k].1 == t
            &&& x == ValueView::Bool(true) ==> es[k].1 == "True"@
            &&& x == ValueView::Bool(false) ==> es[k].1 == "False"@
            &&& x == ValueView::Null ==> es[k].1 == "None"@
        }),
{
    if let ValueView::Dict(o) = v {
        lemma_expressions(o, o.len(), k);
    }
}

proof fn lemma_expressions(o: VarsView, n: nat, k: int)
    requires
        n <= o.len(),
    ensures
        expressions(o, n) is Ok <==> forall|j: int| 0 <= j < n ==> is_scalar((#[trigger] o[j]).1),
        expressions(o, n) is Ok ==> expressions(o, n)->Ok_0.len() == n,
        expressions(o, n) is Ok && 0 <= k < n ==> ({
            let e = expressions(o, n)->Ok_0[k];
            let x = o[k].1;
            &&& e.0 == o[k].0
            &&& x matches ValueView::Text(s) ==> e.1 == s
            &&& x matches ValueView::Int(i) ==> e.1 == dec(i)
            &&& x matches ValueView::Float(t) ==> e.1 == t
            &&& x == ValueView::Bool(true) ==> e.1 == "True"@
            &&& x == ValueView::Bool(false) ==> e.1 == "False"@
            &&& x == ValueView::Null ==> e.1 == "None"@
        }),
    decreases n,
{
    if n > 0 {
        let m = (n - 1) as nat;
        lemma_expressions(o, m, k);
        if expressions(o, n) is Ok {
            assert forall|j: int| 0 <= j < n implies is_scalar((#[trigger] o[j]).1) by {
                if j < m {
                    assert(is_scalar(o[j].1));
                }
            }
        }
        if forall|j: int| 0 <= j < n ==> is_scalar((#[trigger] o[j]).1) {
            assert(is_scalar(o[n - 1].1));
        }
    }
}

/// A field of a configuration is of its kind; what is no field may be anything.
pub open spec fn is_config_field(n: Name, v: ValueView) -> bool {
    &&& n == "compose"@ || n == "groups"@ ==> is_expr_map(v)
    &&& n == "keyed_groups"@ ==> v is List && forall|k: int|
        0 <= k < v->List_0.len() ==> keyed_rule(#[trigger] v->List_0[k]) is Ok
    &&& n == "strict"@ || n == "leading_separator"@ || n == "trailing_separator"@ ==> v is Bool
}

/// The fields of a configuration have different names.
proof fn lemma_config_names()
    ensures
        "compose"@ != "groups"@,
        "compose"@ != "keyed_groups"@,
        "compose"@ != "strict"@,
        "compose"@ != "leading_separator"@,
        "compose"@ != "trailing_separator"@,
        "groups"@ != "keyed_groups"@,
        "groups"@ != "strict"@,
        "groups"@ != "leading_separator"@,
        "groups"@ != "trailing_separator"@,
        "keyed_groups"@ != "strict"@,
        "keyed_groups"@ != "leading_separator"@,
        "keyed_groups"@ != "trailing_separator"@,
        "strict"@ != "leading_separator"@,
        "strict"@ != "trailing_separator"@,
        "leading_separator"@ != "trailing_separator"@,
{
    reveal_strlit("compose");
    reveal_strlit("groups");
    reveal_strlit("keyed_groups");
    reveal_strlit("strict");
    reveal_strlit("leading_separator");
    reveal_strlit("trailing_separator");
    assert("compose"@.len() == 7 && "groups"@.len() == 6 && "keyed_groups"@.len() == 12
        && "strict"@.len() == 6 && "leading_separator"@.len() == 17
        && "trailing_separator"@.len() == 18);
    assert("groups"@[0] == 'g' && "strict"@[0] == 's');
}

/// A map is accepted as a configuration if and only if its fields are of their kinds.
pub proof fn law_accepted_configurations(o: VarsView)
    ensures
        config_of(ValueView::Dict(o)) is Ok <==> forall|k: int|
            0 <= k < o.len() ==> is_config_field((#[trigger] o[k]).0, o[k].1),
{
    lemma_config_fields(o, o.len());
}

proof fn lemma_config_fields(o: VarsView, n: nat)
    requires
        n <= o.len(),
    ensures
        config_fields(o, n) is Ok <==> forall|k: int|
            0 <= k < n ==> is_config_field((#[trigger] o[k]).0, o[k].1),
    decreases n,
{
    lemma_config_names();
    if n > 0 {
        let m = (n - 1) as nat;
        lemma_config_fields(o, m);
        let e = o[n - 1];
        law_accepted_expressions(e.1, 0);
        if let ValueView::List(a) = e.1 {
            law_accepted_rule_lists(a);
        }
        if config_fields(o, n) is Ok {
            assert forall|k: int| 0 <= k < n implies is_config_field(
                (#[trigger] o[k]).0,
                o[k].1,
            ) by {
                if k < m {
                    assert(is_config_field(o[k].0, o[k].1));
                }
            }
        }
        if forall|k: int| 0 <= k < n ==> is_config_field((#[trigger] o[k]).0, o[k].1) {
            assert(is_config_field(e.0, e.1));
        }
    }
}

/// A document is the configuration of a constructed inventory where it names that plugin,
/// by its short or by its full name.
pub proof fn law_plugin(o: VarsView, v: ValueView)
    ensures
        names_plugin(ValueView::Dict(o)) <==> get(o, "plugin"@) == Some(
            ValueView::Text("constructed"@),
        ) || get(o, "plugin"@) == Some(ValueView::Text("ansible.builtin.constructed"@)),
        !(v is Dict) ==> !names_plugin(v),
{
}

// ---------------------------------------------------------------------------------------
// Keys
// ---------------------------------------------------------------------------------------

/// The items of a list that is a key: each gives its part of a name, a text itself, a number
/// as it is written, a boolean as in Python; and a list with anything else in it is no key.
pub proof fn law_items_of_a_key(a: Seq<ValueView>, g: KeyedView, trailing: bool, k: int)
    requires
        a.len() > 0,
    ensures
        key_names(ValueView::List(a), g, trailing) is Ok <==> forall|j: int|
            0 <= j < a.len() ==> is_scalar(#[trigger] a[j]) && !(a[j] is Null),
        key_names(ValueView::List(a), g, trailing) is Ok && 0 <= k < a.len() ==> ({
            let ns = key_names(ValueView::List(a), g, trailing)->Ok_0;
            &&& ns.len() == a.len()
            &&& a[k] matches ValueView::Text(s) ==> ns[k] == s
            &&& a[k] matches ValueView::Int(i) ==> ns[k] == dec(i)
            &&& a[k] matches ValueView::Float(t) ==> ns[k] == t
            &&& a[k] == ValueView::Bool(true) ==> ns[k] == "True"@
            &&& a[k] == ValueView::Bool(false) ==> ns[k] == "False"@
        }),
{
    lemma_items(a, a.len(), k);
}

proof fn lemma_items(a: Seq<ValueView>, n: nat, k: int)
    requires
        n <= a.len(),
    ensures
        item_names(a, n) is Ok <==> forall|j: int|
            0 <= j < n ==> is_scalar(#[trigger] a[j]) && !(a[j] is Null),
        item_names(a, n) is Ok ==> item_names(a, n)->Ok_0.len() == n,
        item_names(a, n) is Ok && 0 <= k < n ==> ({
            let x = item_names(a, n)->Ok_0[k];
            &&& a[k] matches ValueView::Text(s) ==> x == s
            &&& a[k] matches ValueView::Int(i) ==> x == dec(i)
            &&& a[k] matches ValueView::Float(t) ==> x == t
            &&& a[k] == ValueView::Bool(true) ==> x == "True"@
            &&& a[k] == ValueView::Bool(false) ==> x == "False"@
        }),
    decreases n,
{
    if n > 0 {
        let m = (n - 1) as nat;
        lemma_items(a, m, k);
        if item_names(a, n) is Ok {
            assert forall|j: int| 0 <= j < n implies is_scalar(#[trigger] a[j]) && !(a[j] is Null) by {
                if j < m {
                    assert(is_scalar(a[j]));
                }
            }
        }
        if forall|j: int| 0 <= j < n ==> is_scalar(#[trigger] a[j]) && !(a[j] is Null) {
            assert(is_scalar(a[n - 1]));
        }
    }
}

/// A float that is a key gives its part of a name as it is written.
pub proof fn law_float_keys(t: Seq<char>, g: KeyedView, trailing: bool)
    requires
        t != "0.0"@,
        t != "-0.0"@,
    ensures
        key_names(ValueView::Float(t), g, trailing) == Ok::<Seq<Name>, Seq<char>>(seq![t]),
{
}

// ---------------------------------------------------------------------------------------
// Stops
// ---------------------------------------------------------------------------------------

/// The variables of `compose` can be made if and only if each of its expressions can be
/// evaluated.
pub proof fn law_compositions_stop(
    es: Exprs,
    vars: VarsView,
    strict: bool,
    fl: Floats,
    path: Seq<char>,
)
    ensures
        compositions(es, vars, strict, fl, path) is Ok <==> forall|k: int|
            0 <= k < es.len() ==> composed((#[trigger] es[k]).1, vars, strict, fl) is Ok,
    decreases es.len(),
{
    if es.len() > 0 {
        let u = es.drop_last();
        let n = es.len() - 1;
        law_compositions_stop(u, vars, strict, fl, path);
        if compositions(es, vars, strict, fl, path) is Ok {
            assert forall|k: int| 0 <= k < es.len() implies composed(
                (#[trigger] es[k]).1,
                vars,
                strict,
                fl,
            ) is Ok by {
                if k < n {
                    assert(u[k] == es[k]);
                }
            }
        }
        if forall|k: int| 0 <= k < es.len() ==> composed((#[trigger] es[k]).1, vars, strict, fl) is Ok {
            assert forall|k: int| 0 <= k < u.len() implies composed(
                (#[trigger] u[k]).1,
                vars,
                strict,
                fl,
            ) is Ok by {
                assert(u[k] == es[k]);
            }
            assert(composed(es[n].1, vars, strict, fl) is Ok);
        }
    }
}

/// The conditions of `groups` are gone through if and only if each can be evaluated, or is
/// undefined or fails.
pub proof fn law_conditions_stop(
    i: InvView,
    h: Name,
    es: Exprs,
    vars: VarsView,
    fl: Floats,
    path: Seq<char>,
)
    ensures
        conditional_groups(i, h, es, vars, fl, path).1 is None <==> forall|k: int|
            0 <= k < es.len() ==> lenient(
                (#[trigger] es[k]).1,
                evaluated(es[k].1, vars, fl),
            ) is Ok,
    decreases es.len(),
{
    if es.len() > 0 {
        let u = es.drop_last();
        let n = es.len() - 1;
        law_conditions_stop(i, h, u, vars, fl, path);
        if conditional_groups(i, h, es, vars, fl, path).1 is None {
            assert forall|k: int| 0 <= k < es.len() implies lenient(
                (#[trigger] es[k]).1,
                evaluated(es[k].1, vars, fl),
            ) is Ok by {
                if k < n {
                    assert(u[k] == es[k]);
                }
            }
        }
        if forall|k: int|
            0 <= k < es.len() ==> lenient(
                (#[trigger] es[k]).1,
                evaluated(es[k].1, vars, fl),
            ) is Ok {
            assert forall|k: int| 0 <= k < u.len() implies lenient(
                (#[trigger] u[k]).1,
                evaluated(u[k].1, vars, fl),
            ) is Ok by {
                assert(u[k] == es[k]);
            }
            assert(lenient(es[n].1, evaluated(es[n].1, vars, fl)) is Ok);
        }
    }
}

/// The key of a rule can be used: it can be evaluated to parts of names, or is undefined or
/// fails.
pub open spec fn has_key_names(g: KeyedView, trailing: bool, vars: VarsView, fl: Floats) -> bool {
    match lenient(g.key, evaluated(g.key, vars, fl)) {
        Ok(Some(v)) => key_names(v, g, trailing) is Ok,
        Ok(None) => true,
        Err(_) => false,
    }
}

/// The rules of `keyed_groups` are gone through if and only if the key of each can be used.
pub proof fn law_rules_stop(
    i: InvView,
    h: Name,
    gs: Seq<KeyedView>,
    c: ConfigView,
    vars: VarsView,
    fl: Floats,
    path: Seq<char>,
)
    ensures
        all_keyed_groups(i, h, gs, c, vars, fl, path).1 is None <==> forall|k: int|
            0 <= k < gs.len() ==> has_key_names(#[trigger] gs[k], c.trailing_separator, vars, fl),
    decreases gs.len(),
{
    if gs.len() > 0 {
        let u = gs.drop_last();
        let n = gs.len() - 1;
        law_rules_stop(i, h, u, c, vars, fl, path);
        let (j, stop) = all_keyed_groups(i, h, u, c, vars, fl, path);
        assert(keyed_groups(j, h, gs[n], c, vars, fl, path).1 is None <==> has_key_names(
            gs[n],
            c.trailing_separator,
            vars,
            fl,
        ));
        if all_keyed_groups(i, h, gs, c, vars, fl, path).1 is None {
            assert forall|k: int| 0 <= k < gs.len() implies has_key_names(
                #[trigger] gs[k],
                c.trailing_separator,
                vars,
                fl,
            ) by {
                if k < n {
                    assert(u[k] == gs[k]);
                }
            }
        }
        if forall|k: int|
            0 <= k < gs.len() ==> has_key_names(#[trigger] gs[k], c.trailing_separator, vars, fl) {
            assert forall|k: int| 0 <= k < u.len() implies has_key_names(
                #[trigger] u[k],
                c.trailing_separator,
                vars,
                fl,
            ) by {
                assert(u[k] == gs[k]);
            }
            assert(has_key_names(gs[n], c.trailing_separator, vars, fl));
        }
    }
}

} // verus!
