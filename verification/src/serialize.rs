//! How trees are shaped for output: keys in order, nulls left out, and written as JSON, YAML or TOML.

use vstd::prelude::*;
use vstd::relations::{sorted_by, total_ordering};
use vstd::seq_lib::{lemma_sorted_unique, to_multiset_build, to_multiset_contains, to_multiset_insert};
use crate::assoc::{distinct, get, keys, lemma_has, lemma_pos, lemma_pos_unique, pos, Name};
use crate::documents::{json_pretty, pretty_json, toml_text, write_toml, write_yaml, writing, yaml_text};
use crate::error::{outcome, Error, ErrorView};
use crate::text::{join2, lemma_names_push, lemma_text_le_antisym, lemma_text_le_refl, lemma_text_le_total, lemma_text_le_trans, names, text_le, text_not_after};
use crate::value::{lemma_list_view, values, Value, ValueView, VarMap, VarsView};

verus! {

// ---------------------------------------------------------------------------------------
// Order of names
// ---------------------------------------------------------------------------------------

/// The order of names is total.
pub proof fn lemma_name_order()
    ensures
        total_ordering(|a: Name, b: Name| text_le(a, b)),
{
    let r = |a: Name, b: Name| text_le(a, b);
    assert forall|a: Name| #[trigger] r(a, a) by {
        lemma_text_le_refl(a);
    }
    assert forall|a: Name, b: Name| #[trigger] r(a, b) && #[trigger] r(b, a) implies a == b by {
        lemma_text_le_antisym(a, b);
    }
    assert forall|a: Name, b: Name, c: Name| #[trigger] r(a, b) && #[trigger] r(b, c) implies r(
        a,
        c,
    ) by {
        lemma_text_le_trans(a, b, c);
    }
    assert forall|a: Name, b: Name| #[trigger] r(a, b) || #[trigger] r(b, a) by {
        lemma_text_le_total(a, b);
    }
}

/// Names in the order of their code points.
pub open spec fn in_order(ns: Seq<Name>) -> Seq<Name> {
    ns.sort_by(|a: Name, b: Name| text_le(a, b))
}

/// Sorts names by their code points.
pub fn sort_names(v: &Vec<String>) -> (r: Vec<String>)
    ensures
        names(r@) == in_order(names(v@)),
{
    let ghost leq = |a: Name, b: Name| text_le(a, b);
    let ghost src = names(v@);
    let mut out: Vec<String> = Vec::new();
    let mut k: usize = 0;
    proof {
        lemma_name_order();
        assert(names(out@) =~= src.take(0));
    }
    while k < v.len()
        invariant
            k <= v.len(),
            src == names(v@),
            leq == (|a: Name, b: Name| text_le(a, b)),
            total_ordering(leq),
            names(out@).to_multiset() == src.take(k as int).to_multiset(),
            sorted_by(names(out@), leq),
        decreases v.len() - k,
    {
        let g = &v[k];
        proof {
            assert(src[k as int] == g@);
            assert(src.take(k + 1) =~= src.take(k as int).push(g@));
            to_multiset_build(src.take(k as int), g@);
        }
        let mut j: usize = 0;
        while j < out.len() && text_not_after(out[j].as_str(), g.as_str())
            invariant
                j <= out.len(),
                leq == (|a: Name, b: Name| text_le(a, b)),
                forall|m: int| 0 <= m < j ==> leq(#[trigger] names(out@)[m], g@),
            decreases out.len() - j,
        {
            j += 1;
        }
        let ghost b = names(out@);
        out.insert(j, g.clone());
        proof {
            let a = names(out@);
            assert(a =~= b.insert(j as int, g@));
            to_multiset_insert(b, j as int, g@);
            assert forall|x: int, y: int| 0 <= x < y < a.len() implies #[trigger] leq(
                a[x],
                a[y],
            ) by {
                let x0 = if x < j {
                    x
                } else {
                    x - 1
                };
                let y0 = if y < j {
                    y
                } else {
                    y - 1
                };
                if x != j && y != j {
                    assert(a[x] == b[x0] && a[y] == b[y0]);
                    assert(leq(b[x0], b[y0]));
                } else if y == j {
                    assert(a[x] == b[x]);
                } else {
                    assert(a[y] == b[y0]);
                    assert(!leq(b[j as int], g@));
                    assert(leq(g@, b[j as int]));
                    if y0 > j {
                        assert(leq(b[j as int], b[y0]));
                        assert(leq(g@, b[y0]));
                    }
                }
            }
        }
        k += 1;
    }
    proof {
        assert(src.take(k as int) =~= src);
        src.lemma_sort_by_ensures(leq);
        lemma_sorted_unique(names(out@), src.sort_by(leq), leq);
    }
    out
}

/// Sorting keeps the names, and how often each stands.
pub proof fn lemma_in_order(ns: Seq<Name>)
    ensures
        in_order(ns).len() == ns.len(),
        sorted_by(in_order(ns), |a: Name, b: Name| text_le(a, b)),
        forall|x: Name| #[trigger] in_order(ns).contains(x) <==> ns.contains(x),
        ns.no_duplicates() ==> in_order(ns).no_duplicates(),
{
    let leq = |a: Name, b: Name| text_le(a, b);
    lemma_name_order();
    ns.lemma_sort_by_ensures(leq);
    let s = in_order(ns);
    assert forall|x: Name| #[trigger] s.contains(x) <==> ns.contains(x) by {
        to_multiset_contains(s, x);
        to_multiset_contains(ns, x);
    }
    vstd::seq_lib::to_multiset_len(s);
    vstd::seq_lib::to_multiset_len(ns);
    if ns.no_duplicates() {
        ns.lemma_multiset_has_no_duplicates();
        s.lemma_multiset_has_no_duplicates_conv();
    }
}

// ---------------------------------------------------------------------------------------
// Keys in order
// ---------------------------------------------------------------------------------------

/// A value with the keys of all its maps in order.
pub open spec fn sorted_value(v: ValueView) -> ValueView
    decreases v,
{
    match v {
        ValueView::List(a) => ValueView::List(
            Seq::new(
                a.len(),
                |i: int|
                    if 0 <= i < a.len() {
                        sorted_value(a[i])
                    } else {
                        ValueView::Null
                    },
            ),
        ),
        ValueView::Dict(o) => {
            let ks = in_order(keys(o));
            ValueView::Dict(
                Seq::new(
                    o.len(),
                    |i: int|
                        (
                            ks[i],
                            if 0 <= pos(o, ks[i]) < o.len() {
                                sorted_value(o[pos(o, ks[i])].1)
                            } else {
                                ValueView::Null
                            },
                        ),
                ),
            )
        },
        other => other,
    }
}

/// The entries of a map in the order of their keys.
pub open spec fn sorted_entries(o: VarsView) -> VarsView {
    let ks = in_order(keys(o));
    Seq::new(
        o.len(),
        |i: int|
            (
                ks[i],
                if 0 <= pos(o, ks[i]) < o.len() {
                    sorted_value(o[pos(o, ks[i])].1)
                } else {
                    ValueView::Null
                },
            ),
    )
}

/// The names of a map.
fn key_list(o: &VarMap) -> (r: Vec<String>)
    ensures
        names(r@) == keys(o@),
{
    let mut out: Vec<String> = Vec::new();
    let mut i: usize = 0;
    while i < o.len()
        invariant
            i <= o@.len(),
            names(out@) =~= keys(o@).take(i as int),
        decreases o@.len() - i,
    {
        let k = o.name_at(i).clone();
        proof {
            lemma_names_push(out@, k);
        }
        out.push(k);
        i += 1;
    }
    assert(keys(o@).take(i as int) =~= keys(o@));
    out
}

/// Sorts the keys of all maps in a value.
pub fn sort_keys(value: &Value) -> (r: Value)
    ensures
        r@ == sorted_value(value@),
    decreases value,
{
    match value {
        Value::List(a) => {
            let ghost items = values(a@);
            proof {
                lemma_list_view(*a);
            }
            let mut out: Vec<Value> = Vec::new();
            let mut i: usize = 0;
            while i < a.len()
                invariant
                    i <= a@.len(),
                    out@.len() == i,
                    forall|j: int| 0 <= j < i ==> (#[trigger] out@[j])@ == sorted_value(a@[j]@),
                    decreases_to!(value => a),
                decreases a.len() - i,
            {
                assert(decreases_to!(a => a@[i as int]));
                out.push(sort_keys(&a[i]));
                i += 1;
            }
            proof {
                lemma_list_view(out);
                assert(values(out@) =~= sorted_value(value@)->List_0);
            }
            Value::List(out)
        },
        Value::Dict(o) => {
            let ks = key_list(o);
            let order = sort_names(&ks);
            let ghost ns = in_order(keys(o@));
            let ghost target = sorted_entries(o@);
            proof {
                use_type_invariant(o);
                lemma_keys_distinct(o@);
                lemma_in_order(keys(o@));
            }
            let mut out = VarMap::new();
            let mut i: usize = 0;
            assert(out@ =~= target.take(0));
            while i < order.len()
                invariant
                    i <= order.len(),
                    names(order@) == ns,
                    ns == in_order(keys(o@)),
                    ns.len() == o@.len(),
                    ns.no_duplicates(),
                    forall|x: Name| #[trigger] ns.contains(x) <==> keys(o@).contains(x),
                    target == sorted_entries(o@),
                    out@ == target.take(i as int),
                    decreases_to!(value => o),
                decreases order.len() - i,
            {
                let k = &order[i];
                proof {
                    assert(ns[i as int] == k@);
                    assert(ns.contains(k@));
                    lemma_has(o@, k@);
                    lemma_pos(o@, k@);
                    assert forall|j: int| 0 <= j < i implies (#[trigger] out@[j]).0 != k@ by {
                        assert(out@[j].0 == ns[j]);
                    }
                    lemma_pos_unique(out@, k@, i as int);
                }
                match o.get(k.as_str()) {
                    Some(v) => {
                        let ghost before = out@;
                        let s = sort_keys(v);
                        out.insert(k.clone(), s);
                        assert(out@ =~= target.take(i + 1));
                    },
                    None => vstd::pervasive::unreached(),
                }
                i += 1;
            }
            proof {
                assert(target.take(i as int) =~= target);
                assert(value@ == ValueView::Dict(o@));
                assert(sorted_value(value@)->Dict_0 =~= target);
            }
            Value::Dict(out)
        },
        _ => value.clone(),
    }
}

/// Distinct entries have distinct keys.
proof fn lemma_keys_distinct(o: VarsView)
    requires
        distinct(o),
    ensures
        keys(o).no_duplicates(),
{
    assert forall|i: int, j: int|
        0 <= i < keys(o).len() && 0 <= j < keys(o).len() && i != j implies keys(o)[i]
        != keys(o)[j] by {
        if i < j {
            assert(o[i].0 != o[j].0);
        } else {
            assert(o[j].0 != o[i].0);
        }
    }
}

// ---------------------------------------------------------------------------------------
// Nulls left out
// ---------------------------------------------------------------------------------------

/// A value without nulls: entries and items that are null are left out, at every depth.
pub open spec fn stripped(v: ValueView) -> ValueView
    decreases v,
{
    match v {
        ValueView::List(a) => ValueView::List(stripped_items(a, a.len())),
        ValueView::Dict(o) => ValueView::Dict(stripped_entries(o, o.len())),
        other => other,
    }
}

/// The first `n` items of a list, without nulls.
pub open spec fn stripped_items(a: Seq<ValueView>, n: nat) -> Seq<ValueView>
    decreases a, n,
{
    if n == 0 || n > a.len() {
        Seq::empty()
    } else if a[n - 1] is Null {
        stripped_items(a, (n - 1) as nat)
    } else {
        stripped_items(a, (n - 1) as nat).push(stripped(a[n - 1]))
    }
}

/// The first `n` entries of a map, without nulls.
pub open spec fn stripped_entries(o: VarsView, n: nat) -> VarsView
    decreases o, n,
{
    if n == 0 || n > o.len() {
        Seq::empty()
    } else if o[n - 1].1 is Null {
        stripped_entries(o, (n - 1) as nat)
    } else {
        let e = o[n - 1];
        stripped_entries(o, (n - 1) as nat).push((e.0, stripped(e.1)))
    }
}

/// The keys of what is left are keys of the entries looked at.
proof fn lemma_stripped_keys(o: VarsView, n: nat, j: int)
    requires
        n <= o.len(),
        0 <= j < stripped_entries(o, n).len(),
    ensures
        exists|k: int| 0 <= k < n && (#[trigger] o[k]).0 == stripped_entries(o, n)[j].0,
    decreases n,
{
    if n > 0 {
        let before = stripped_entries(o, (n - 1) as nat);
        if j < before.len() {
            lemma_stripped_keys(o, (n - 1) as nat, j);
            let k = choose|k: int| 0 <= k < n - 1 && (#[trigger] o[k]).0 == before[j].0;
            assert(o[k].0 == stripped_entries(o, n)[j].0);
        } else {
            assert(o[n - 1].0 == stripped_entries(o, n)[j].0);
        }
    }
}

/// Whether a value is null.
fn is_null(v: &Value) -> (r: bool)
    ensures
        r == (v@ is Null),
{
    match v {
        Value::Null => true,
        _ => false,
    }
}

/// Leaves nulls out.
pub fn strip_nulls(value: &Value) -> (r: Value)
    ensures
        r@ == stripped(value@),
    decreases value,
{
    match value {
        Value::List(a) => {
            let ghost items = values(a@);
            proof {
                lemma_list_view(*a);
            }
            let mut out: Vec<Value> = Vec::new();
            let mut i: usize = 0;
            assert(values(out@) =~= Seq::empty());
            while i < a.len()
                invariant
                    i <= a@.len(),
                    items == values(a@),
                    values(out@) == stripped_items(items, i as nat),
                    decreases_to!(value => a),
                decreases a.len() - i,
            {
                assert(decreases_to!(a => a@[i as int]));
                assert(items[i as int] == a@[i as int]@);
                if !is_null(&a[i]) {
                    let ghost before = values(out@);
                    let s = strip_nulls(&a[i]);
                    out.push(s);
                    assert(values(out@) =~= before.push(s@));
                }
                i += 1;
            }
            proof {
                lemma_list_view(out);
            }
            Value::List(out)
        },
        Value::Dict(o) => {
            proof {
                use_type_invariant(o);
            }
            let mut out = VarMap::new();
            let mut i: usize = 0;
            while i < o.len()
                invariant
                    i <= o@.len(),
                    distinct(o@),
                    out@ == stripped_entries(o@, i as nat),
                    decreases_to!(value => o),
                decreases o@.len() - i,
            {
                let v = o.value_at(i);
                if !is_null(v) {
                    let s = strip_nulls(v);
                    proof {
                        let k = o@[i as int].0;
                        assert forall|j: int| 0 <= j < out@.len() implies (#[trigger] out@[j]).0
                            != k by {
                            lemma_stripped_keys(o@, i as nat, j);
                            let m = choose|m: int|
                                0 <= m < i && (#[trigger] o@[m]).0 == out@[j].0;
                            assert(o@[m].0 != o@[i as int].0);
                        }
                        lemma_pos_unique(out@, k, out@.len() as int);
                    }
                    out.insert(o.name_at(i).clone(), s);
                }
                i += 1;
            }
            Value::Dict(out)
        },
        _ => value.clone(),
    }
}

// ---------------------------------------------------------------------------------------
// Texts
// ---------------------------------------------------------------------------------------

/// A value as JSON with sorted keys, indented by four spaces.
pub fn to_json(value: &Value) -> (r: String)
    ensures
        r@ == json_pretty(sorted_value(value@), "    "@),
{
    let sorted = sort_keys(value);
    pretty_json(&sorted, "    ")
}

/// An error of the output.
pub open spec fn output_fault(what: Seq<char>, why: Seq<char>) -> ErrorView {
    ErrorView::Parse { path: "<output>"@, msg: what + why }
}

fn output_error(what: &str, why: &str) -> (r: Error)
    ensures
        r@ == output_fault(what@, why@),
{
    Error::Parse { path: "<output>".to_owned(), msg: join2(what, why) }
}

/// The YAML that the output is, given what YAML made of its value.
pub open spec fn yaml_output(written: Result<Seq<char>, Seq<char>>) -> Result<
    Seq<char>,
    ErrorView,
> {
    match written {
        Ok(t) => Ok(t),
        Err(e) => Err(output_fault("cannot represent inventory as YAML: "@, e)),
    }
}

/// The TOML that the output is, given what TOML made of its value.
pub open spec fn toml_output(
    written: Result<Result<Seq<char>, Seq<char>>, Seq<char>>,
) -> Result<Seq<char>, ErrorView> {
    match written {
        Ok(Ok(t)) => Ok(t),
        Ok(Err(e)) => Err(output_fault("cannot serialize TOML: "@, e)),
        Err(e) => Err(output_fault("cannot represent inventory as TOML: "@, e)),
    }
}

/// The output, given what YAML made of its value.
pub fn yaml_result(written: Result<String, String>) -> (r: Result<String, Error>)
    ensures
        outcome(r, |t: String| t@) == yaml_output(writing(written)),
{
    match written {
        Ok(t) => Ok(t),
        Err(e) => Err(output_error("cannot represent inventory as YAML: ", e.as_str())),
    }
}

/// The output, given what TOML made of its value.
pub fn toml_result(written: Result<Result<String, String>, String>) -> (r: Result<String, Error>)
    ensures
        outcome(r, |t: String| t@) == toml_output(
            match written {
                Ok(w) => Ok(writing(w)),
                Err(e) => Err(e@),
            },
        ),
{
    match written {
        Ok(Ok(t)) => Ok(t),
        Ok(Err(e)) => Err(output_error("cannot serialize TOML: ", e.as_str())),
        Err(e) => Err(output_error("cannot represent inventory as TOML: ", e.as_str())),
    }
}

/// A value as YAML with sorted keys.
pub fn to_yaml(value: &Value) -> (r: Result<String, Error>)
    ensures
        outcome(r, |t: String| t@) == yaml_output(yaml_text(sorted_value(value@))),
{
    let sorted = sort_keys(value);
    yaml_result(write_yaml(&sorted))
}

/// A value as TOML, its nulls left out.
pub fn to_toml(value: &Value) -> (r: Result<String, Error>)
    ensures
        outcome(r, |t: String| t@) == toml_output(toml_text(stripped(value@))),
{
    let bare = strip_nulls(value);
    toml_result(write_toml(&bare))
}

// ---------------------------------------------------------------------------------------
// Laws
// ---------------------------------------------------------------------------------------

/// No item and no entry within a value is null.
pub open spec fn null_free(v: ValueView) -> bool
    decreases v,
{
    match v {
        ValueView::List(a) => forall|i: int|
            0 <= i < a.len() ==> !((#[trigger] a[i]) is Null) && null_free(a[i]),
        ValueView::Dict(o) => forall|i: int|
            0 <= i < o.len() ==> !((#[trigger] o[i]).1 is Null) && null_free(o[i].1),
        _ => true,
    }
}

proof fn lemma_stripped_items(a: Seq<ValueView>, n: nat, j: int)
    requires
        n <= a.len(),
        0 <= j < stripped_items(a, n).len(),
    ensures
        !(stripped_items(a, n)[j] is Null),
        null_free(stripped_items(a, n)[j]),
    decreases a, n,
{
    if n > 0 {
        let before = stripped_items(a, (n - 1) as nat);
        if j < before.len() {
            lemma_stripped_items(a, (n - 1) as nat, j);
        } else {
            law_stripped_is_null_free(a[n - 1]);
        }
    }
}

proof fn lemma_stripped_entries(o: VarsView, n: nat, j: int)
    requires
        n <= o.len(),
        0 <= j < stripped_entries(o, n).len(),
    ensures
        !(stripped_entries(o, n)[j].1 is Null),
        null_free(stripped_entries(o, n)[j].1),
    decreases o, n,
{
    if n > 0 {
        let before = stripped_entries(o, (n - 1) as nat);
        if j < before.len() {
            lemma_stripped_entries(o, (n - 1) as nat, j);
        } else {
            let e = o[n - 1];
            law_stripped_is_null_free(e.1);
        }
    }
}

/// Nothing within a stripped value is null.
pub proof fn law_stripped_is_null_free(v: ValueView)
    ensures
        null_free(stripped(v)),
        stripped(v) is Null <==> v is Null,
    decreases v,
{
    match v {
        ValueView::List(a) => {
            let s = stripped_items(a, a.len());
            assert forall|j: int| 0 <= j < s.len() implies !((#[trigger] s[j]) is Null)
                && null_free(s[j]) by {
                lemma_stripped_items(a, a.len(), j);
            }
        },
        ValueView::Dict(o) => {
            let s = stripped_entries(o, o.len());
            assert forall|j: int| 0 <= j < s.len() implies !((#[trigger] s[j]).1 is Null)
                && null_free(s[j].1) by {
                lemma_stripped_entries(o, o.len(), j);
            }
        },
        _ => {},
    }
}

proof fn lemma_kept_items(a: Seq<ValueView>, n: nat)
    requires
        n <= a.len(),
        forall|i: int| 0 <= i < a.len() ==> !((#[trigger] a[i]) is Null) && null_free(a[i]),
    ensures
        stripped_items(a, n) == a.take(n as int),
    decreases a, n,
{
    if n == 0 {
        assert(a.take(0) =~= Seq::empty());
    } else {
        lemma_kept_items(a, (n - 1) as nat);
        assert(!(a[n - 1] is Null) && null_free(a[n - 1]));
        law_null_free_is_kept(a[n - 1]);
        assert(a.take(n as int) =~= a.take(n - 1).push(a[n - 1]));
    }
}

proof fn lemma_kept_entries(o: VarsView, n: nat)
    requires
        n <= o.len(),
        forall|i: int| 0 <= i < o.len() ==> !((#[trigger] o[i]).1 is Null) && null_free(o[i].1),
    ensures
        stripped_entries(o, n) == o.take(n as int),
    decreases o, n,
{
    if n == 0 {
        assert(o.take(0) =~= Seq::empty());
    } else {
        lemma_kept_entries(o, (n - 1) as nat);
        let e = o[n - 1];
        assert(!(o[n - 1].1 is Null) && null_free(o[n - 1].1));
        law_null_free_is_kept(e.1);
        assert(o.take(n as int) =~= o.take(n - 1).push(o[n - 1]));
    }
}

/// Stripping keeps a value that has no nulls within it; so stripping twice is stripping
/// once.
pub proof fn law_null_free_is_kept(v: ValueView)
    requires
        null_free(v),
    ensures
        stripped(v) == v,
    decreases v,
{
    match v {
        ValueView::List(a) => {
            lemma_kept_items(a, a.len());
            assert(a.take(a.len() as int) =~= a);
        },
        ValueView::Dict(o) => {
            lemma_kept_entries(o, o.len());
            assert(o.take(o.len() as int) =~= o);
        },
        _ => {},
    }
}

/// Sorting the keys of a map keeps its keys and puts them in order; what stands under a key
/// is what stood there, sorted in turn.
pub proof fn law_sorted_entries(o: VarsView, k: Name)
    requires
        distinct(o),
    ensures
        sorted_value(ValueView::Dict(o)) == ValueView::Dict(sorted_entries(o)),
        sorted_entries(o).len() == o.len(),
        sorted_by(keys(sorted_entries(o)), |a: Name, b: Name| text_le(a, b)),
        get(sorted_entries(o), k) == (match get(o, k) {
            Some(v) => Some(sorted_value(v)),
            None => None,
        }),
{
    let s = sorted_entries(o);
    let ks = in_order(keys(o));
    assert(sorted_value(ValueView::Dict(o))->Dict_0 =~= s);
    lemma_keys_distinct(o);
    lemma_in_order(keys(o));
    assert(keys(s) =~= ks);
    lemma_has(o, k);
    lemma_has(s, k);
    lemma_pos(o, k);
    lemma_pos(s, k);
    assert(ks.contains(k) <==> keys(o).contains(k));
}

} // verus!
