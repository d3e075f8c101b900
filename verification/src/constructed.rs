//! Inventories constructed from variables: `compose` makes host variables, `groups` and
//! `keyed_groups` make groups, out of the hosts known so far.
//!
//! For each host, the `compose` expressions are all evaluated against the variables as they
//! were before, then assigned; `groups` and `keyed_groups` see the assigned variables. Only
//! variables of inventory sources are seen, not those of `group_vars/` and `host_vars/`
//! files.

use vstd::prelude::*;
use indexmap::IndexMap;
use crate::assoc::{distinct, get, holds, lemma_pos, lemma_pos_unique, lemma_put_distinct, lemma_put_get, pos, put, Name};
use crate::error::{Error, ErrorView};
use crate::expr::{composed, eval_compose, eval_condition, eval_key, evaluated, lenient, EvalStop, Stop};
use crate::expr::number::{answer, Fail, FloatQuery, FloatQueryView, FloatTable, Floats};
use crate::expr::ops::{is_true, truthy};
use crate::expr::parser::parsed;
use crate::expr::questions::law_answers_change_nothing_decided;
use crate::model::{InvView, InventoryData};
use crate::sanitize::{lemma_safe_name_fixed, safe_name, to_safe_group_name};
use crate::text::{debug_str, debug_text, dec, dec_i64, dec_u64, join2, join3, lemma_names_push, names, same};
use crate::value::{json_text, lemma_list_view, values, var_list, Number, Value, ValueView, VarMap, VarsView};
use crate::vars::{resolve_host_inline_vars, resolved_inline};

verus! {

// ---------------------------------------------------------------------------------------
// Configuration
// ---------------------------------------------------------------------------------------

/// One `keyed_groups` rule.
#[derive(Debug)]
pub struct KeyedGroup {
    pub key: String,
    pub prefix: String,
    pub separator: String,
    pub default_value: Option<String>,
    pub parent_group: Option<String>,
}

/// A configuration.
#[derive(Debug)]
pub struct Config {
    /// Variables to set, by expression.
    pub compose: IndexMap<String, String>,
    pub keyed_groups: Vec<KeyedGroup>,
    /// Groups to join, by condition.
    pub groups: IndexMap<String, String>,
    /// Whether a `compose` expression without a value is an error.
    pub strict: bool,
    /// Whether the separator stands before a name without prefix.
    pub leading_separator: bool,
    /// Whether a key that is defined but not true makes a group without a default.
    pub trailing_separator: bool,
}

/// What named expressions are.
pub type Exprs = Seq<(Name, Seq<char>)>;

/// The entries of a map of expressions, in insertion order.
pub uninterp spec fn expr_entries(m: IndexMap<String, String>) -> Exprs;

/// `IndexMap::new`: a map without entries.
#[verifier::external_body]
fn exprs_new() -> (r: IndexMap<String, String>)
    ensures
        expr_entries(r) == Exprs::empty(),
{
    IndexMap::new()
}

/// `IndexMap::insert`: replaces the value of an entry that is there, keeping its position;
/// appends a new entry otherwise.
#[verifier::external_body]
fn exprs_insert(m: &mut IndexMap<String, String>, k: String, v: String)
    ensures
        expr_entries(*final(m)) == put(expr_entries(*old(m)), k@, v@),
{
    m.insert(k, v);
}

/// `IndexMap::len`: the number of entries.
#[verifier::external_body]
fn exprs_len(m: &IndexMap<String, String>) -> (r: usize)
    ensures
        r == expr_entries(*m).len(),
{
    m.len()
}

/// `IndexMap::get_index`: the entry at a position of the insertion order.
#[verifier::external_body]
fn exprs_at<'a>(m: &'a IndexMap<String, String>, i: usize) -> (r: Option<(&'a String, &'a String)>)
    ensures
        r is Some <==> i < expr_entries(*m).len(),
        r matches Some(e) ==> (e.0@, e.1@) == expr_entries(*m)[i as int],
{
    m.get_index(i)
}

/// What a rule is.
pub struct KeyedView {
    pub key: Seq<char>,
    pub prefix: Seq<char>,
    pub separator: Seq<char>,
    pub default_value: Option<Seq<char>>,
    pub parent_group: Option<Seq<char>>,
}

/// What an optional text is.
pub open spec fn opt_text(o: Option<String>) -> Option<Seq<char>> {
    match o {
        Some(s) => Some(s@),
        None => None,
    }
}

impl View for KeyedGroup {
    type V = KeyedView;

    open spec fn view(&self) -> KeyedView {
        KeyedView {
            key: self.key@,
            prefix: self.prefix@,
            separator: self.separator@,
            default_value: opt_text(self.default_value),
            parent_group: opt_text(self.parent_group),
        }
    }
}

/// What rules are.
pub open spec fn rules(s: Seq<KeyedGroup>) -> Seq<KeyedView> {
    Seq::new(s.len(), |i: int| s[i]@)
}

/// What a configuration is.
pub struct ConfigView {
    pub compose: Exprs,
    pub keyed_groups: Seq<KeyedView>,
    pub groups: Exprs,
    pub strict: bool,
    pub leading_separator: bool,
    pub trailing_separator: bool,
}

impl View for Config {
    type V = ConfigView;

    open spec fn view(&self) -> ConfigView {
        ConfigView {
            compose: expr_entries(self.compose),
            keyed_groups: rules(self.keyed_groups@),
            groups: expr_entries(self.groups),
            strict: self.strict,
            leading_separator: self.leading_separator,
            trailing_separator: self.trailing_separator,
        }
    }
}

/// What a value is called where another was expected.
pub open spec fn unexpected(v: ValueView) -> Seq<char> {
    match v {
        ValueView::Null => "null"@,
        ValueView::Bool(b) => if b {
            "boolean `true`"@
        } else {
            "boolean `false`"@
        },
        ValueView::Int(i) => "integer `"@ + dec(i) + "`"@,
        ValueView::Float(t) => "floating point `"@ + t + "`"@,
        ValueView::Text(s) => "string "@ + debug_text(s),
        ValueView::List(_) => "sequence"@,
        ValueView::Dict(_) => "map"@,
    }
}

/// A value of the wrong kind.
pub open spec fn wrong_kind(v: ValueView, expected: Seq<char>) -> Seq<char> {
    "invalid type: "@ + unexpected(v) + ", expected "@ + expected
}

/// A value as an expression: a scalar as it is written in Python.
pub open spec fn expression(v: ValueView) -> Result<Seq<char>, Seq<char>> {
    match v {
        ValueView::Text(s) => Ok(s),
        ValueView::Bool(b) => Ok(
            if b {
                "True"@
            } else {
                "False"@
            },
        ),
        ValueView::Int(i) => Ok(dec(i)),
        ValueView::Float(t) => Ok(t),
        ValueView::Null => Ok("None"@),
        _ => Err("expected a string expression, found "@ + json_text(v)),
    }
}

/// The first `n` entries of a map as named expressions.
pub open spec fn expressions(o: VarsView, n: nat) -> Result<Exprs, Seq<char>>
    decreases n,
{
    if n == 0 || n > o.len() {
        Ok(Seq::empty())
    } else {
        match expressions(o, (n - 1) as nat) {
            Err(e) => Err(e),
            Ok(before) => match expression(o[n - 1].1) {
                Err(e) => Err(e),
                Ok(s) => Ok(before.push((o[n - 1].0, s))),
            },
        }
    }
}

/// A value as named expressions.
pub open spec fn expr_map(v: ValueView) -> Result<Exprs, Seq<char>> {
    match v {
        ValueView::Dict(o) => expressions(o, o.len()),
        _ => Err(wrong_kind(v, "a map"@)),
    }
}

/// A value as a boolean.
pub open spec fn boolean(v: ValueView) -> Result<bool, Seq<char>> {
    match v {
        ValueView::Bool(b) => Ok(b),
        _ => Err(wrong_kind(v, "a boolean"@)),
    }
}

/// A value as a text.
pub open spec fn text(v: ValueView) -> Result<Seq<char>, Seq<char>> {
    match v {
        ValueView::Text(s) => Ok(s),
        _ => Err(wrong_kind(v, "a string"@)),
    }
}

/// A value as an optional text.
pub open spec fn optional_text(v: ValueView) -> Result<Option<Seq<char>>, Seq<char>> {
    match v {
        ValueView::Null => Ok(None),
        ValueView::Text(s) => Ok(Some(s)),
        _ => Err(wrong_kind(v, "a string"@)),
    }
}

/// A rule before its fields are read; `key` is yet to come.
pub open spec fn blank_rule() -> (KeyedView, bool) {
    (
        KeyedView {
            key: Seq::empty(),
            prefix: Seq::empty(),
            separator: "_"@,
            default_value: None,
            parent_group: None,
        },
        false,
    )
}

/// A rule with one field read, and whether its `key` has been; other fields are passed over.
pub open spec fn rule_field(r: (KeyedView, bool), k: Name, v: ValueView) -> Result<
    (KeyedView, bool),
    Seq<char>,
> {
    let (g, keyed) = r;
    if k == "key"@ {
        match text(v) {
            Ok(s) => Ok((KeyedView { key: s, ..g }, true)),
            Err(e) => Err(e),
        }
    } else if k == "prefix"@ {
        match text(v) {
            Ok(s) => Ok((KeyedView { prefix: s, ..g }, keyed)),
            Err(e) => Err(e),
        }
    } else if k == "separator"@ {
        match text(v) {
            Ok(s) => Ok((KeyedView { separator: s, ..g }, keyed)),
            Err(e) => Err(e),
        }
    } else if k == "default_value"@ {
        match optional_text(v) {
            Ok(s) => Ok((KeyedView { default_value: s, ..g }, keyed)),
            Err(e) => Err(e),
        }
    } else if k == "parent_group"@ {
        match optional_text(v) {
            Ok(s) => Ok((KeyedView { parent_group: s, ..g }, keyed)),
            Err(e) => Err(e),
        }
    } else {
        Ok(r)
    }
}

/// A rule with the first `n` fields of a map read, in order.
pub open spec fn rule_fields(o: VarsView, n: nat) -> Result<(KeyedView, bool), Seq<char>>
    decreases n,
{
    if n == 0 || n > o.len() {
        Ok(blank_rule())
    } else {
        match rule_fields(o, (n - 1) as nat) {
            Err(e) => Err(e),
            Ok(r) => rule_field(r, o[n - 1].0, o[n - 1].1),
        }
    }
}

/// The name of a rule's field by its position in a list.
pub open spec fn rule_field_name(i: int) -> Name {
    if i == 0 {
        "key"@
    } else if i == 1 {
        "prefix"@
    } else if i == 2 {
        "separator"@
    } else if i == 3 {
        "default_value"@
    } else {
        "parent_group"@
    }
}

/// The name of a configuration's field by its position in a list.
pub open spec fn config_field_name(i: int) -> Name {
    if i == 0 {
        "compose"@
    } else if i == 1 {
        "keyed_groups"@
    } else if i == 2 {
        "groups"@
    } else if i == 3 {
        "strict"@
    } else if i == 4 {
        "leading_separator"@
    } else {
        "trailing_separator"@
    }
}

/// The first `n` items of a list as fields by position.
pub open spec fn positional(a: Seq<ValueView>, n: int, name: spec_fn(int) -> Name) -> VarsView {
    Seq::new(
        (if a.len() < n {
            a.len() as int
        } else {
            n
        }) as nat,
        |i: int| (name(i), a[i]),
    )
}

/// A list that is too long for its fields.
pub open spec fn too_long(n: nat) -> Seq<char> {
    "invalid length "@ + dec(n as int) + ", expected fewer elements in array"@
}

/// A value as a rule: a map of its fields, or a list of them by position.
pub open spec fn keyed_rule(v: ValueView) -> Result<KeyedView, Seq<char>> {
    match v {
        ValueView::Dict(o) => match rule_fields(o, o.len()) {
            Err(e) => Err(e),
            Ok((g, keyed)) => if keyed {
                Ok(g)
            } else {
                Err("missing field `key`"@)
            },
        },
        ValueView::List(a) => {
            let o = positional(a, 5, |i: int| rule_field_name(i));
            match rule_fields(o, o.len()) {
                Err(e) => Err(e),
                Ok((g, keyed)) => if !keyed {
                    Err("invalid length 0, expected struct KeyedGroup with 5 elements"@)
                } else if a.len() > 5 {
                    Err(too_long(a.len()))
                } else {
                    Ok(g)
                },
            }
        },
        _ => Err(wrong_kind(v, "struct KeyedGroup"@)),
    }
}

/// The first `n` items of a list as rules.
pub open spec fn rules_of(a: Seq<ValueView>, n: nat) -> Result<Seq<KeyedView>, Seq<char>>
    decreases n,
{
    if n == 0 || n > a.len() {
        Ok(Seq::empty())
    } else {
        match rules_of(a, (n - 1) as nat) {
            Err(e) => Err(e),
            Ok(before) => match keyed_rule(a[n - 1]) {
                Err(e) => Err(e),
                Ok(g) => Ok(before.push(g)),
            },
        }
    }
}

/// A value as rules.
pub open spec fn rule_list(v: ValueView) -> Result<Seq<KeyedView>, Seq<char>> {
    match v {
        ValueView::List(a) => rules_of(a, a.len()),
        _ => Err(wrong_kind(v, "a sequence"@)),
    }
}

/// The configuration without any field.
pub open spec fn blank_config() -> ConfigView {
    ConfigView {
        compose: Seq::empty(),
        keyed_groups: Seq::empty(),
        groups: Seq::empty(),
        strict: false,
        leading_separator: true,
        trailing_separator: true,
    }
}

/// A configuration with one field read; other fields are passed over.
pub open spec fn config_field(c: ConfigView, k: Name, v: ValueView) -> Result<
    ConfigView,
    Seq<char>,
> {
    if k == "compose"@ {
        match expr_map(v) {
            Ok(m) => Ok(ConfigView { compose: m, ..c }),
            Err(e) => Err(e),
        }
    } else if k == "keyed_groups"@ {
        match rule_list(v) {
            Ok(r) => Ok(ConfigView { keyed_groups: r, ..c }),
            Err(e) => Err(e),
        }
    } else if k == "groups"@ {
        match expr_map(v) {
            Ok(m) => Ok(ConfigView { groups: m, ..c }),
            Err(e) => Err(e),
        }
    } else if k == "strict"@ {
        match boolean(v) {
            Ok(b) => Ok(ConfigView { strict: b, ..c }),
            Err(e) => Err(e),
        }
    } else if k == "leading_separator"@ {
        match boolean(v) {
            Ok(b) => Ok(ConfigView { leading_separator: b, ..c }),
            Err(e) => Err(e),
        }
    } else if k == "trailing_separator"@ {
        match boolean(v) {
            Ok(b) => Ok(ConfigView { trailing_separator: b, ..c }),
            Err(e) => Err(e),
        }
    } else {
        Ok(c)
    }
}

/// A configuration with the first `n` fields of a map read, in order.
pub open spec fn config_fields(o: VarsView, n: nat) -> Result<ConfigView, Seq<char>>
    decreases n,
{
    if n == 0 || n > o.len() {
        Ok(blank_config())
    } else {
        match config_fields(o, (n - 1) as nat) {
            Err(e) => Err(e),
            Ok(c) => config_field(c, o[n - 1].0, o[n - 1].1),
        }
    }
}

/// A value as a configuration: a map of its fields, or a list of them by position.
pub open spec fn config_of(v: ValueView) -> Result<ConfigView, Seq<char>> {
    match v {
        ValueView::Dict(o) => config_fields(o, o.len()),
        ValueView::List(a) => {
            let o = positional(a, 6, |i: int| config_field_name(i));
            match config_fields(o, o.len()) {
                Err(e) => Err(e),
                Ok(c) => if a.len() > 6 {
                    Err(too_long(a.len()))
                } else {
                    Ok(c)
                },
            }
        },
        _ => Err(wrong_kind(v, "struct Config"@)),
    }
}

/// A document is the configuration of a constructed inventory.
pub open spec fn names_plugin(v: ValueView) -> bool {
    match v {
        ValueView::Dict(o) => match get(o, "plugin"@) {
            Some(ValueView::Text(p)) => p == "constructed"@ || p == "ansible.builtin.constructed"@,
            _ => false,
        },
        _ => false,
    }
}

/// Whether a document is the configuration of a constructed inventory.
pub fn is_constructed(value: &Value) -> (r: bool)
    ensures
        r == names_plugin(value@),
{
    match value {
        Value::Dict(o) => match o.get("plugin") {
            Some(Value::Text(p)) => same(p.as_str(), "constructed") || same(
                p.as_str(),
                "ansible.builtin.constructed",
            ),
            _ => false,
        },
        _ => false,
    }
}

/// What a value is called where another was expected.
fn describe(v: &Value) -> (r: String)
    ensures
        r@ == unexpected(v@),
{
    match v {
        Value::Null => "null".to_owned(),
        Value::Bool(b) => if *b {
            "boolean `true`".to_owned()
        } else {
            "boolean `false`".to_owned()
        },
        Value::Number(Number::PosInt(n)) => {
            let d = dec_u64(*n);
            join3("integer `", d.as_str(), "`")
        },
        Value::Number(Number::NegInt(n)) => {
            let d = dec_i64(*n);
            join3("integer `", d.as_str(), "`")
        },
        Value::Number(Number::Float(t)) => join3("floating point `", t.as_str(), "`"),
        Value::Text(s) => {
            let d = debug_str(s.as_str());
            join2("string ", d.as_str())
        },
        Value::List(_) => "sequence".to_owned(),
        Value::Dict(_) => "map".to_owned(),
    }
}

/// A value of the wrong kind.
fn kind_error(v: &Value, expected: &str) -> (r: String)
    ensures
        r@ == wrong_kind(v@, expected@),
{
    let d = describe(v);
    let mut out = join3("invalid type: ", d.as_str(), ", expected ");
    out.append(expected);
    out
}

/// A value as an expression.
pub fn value_to_expr(v: &Value) -> (r: Result<String, String>)
    ensures
        (match r {
            Ok(s) => Ok(s@),
            Err(e) => Err(e@),
        }) == expression(v@),
{
    match v {
        Value::Text(s) => Ok(s.clone()),
        Value::Bool(b) => if *b {
            Ok("True".to_owned())
        } else {
            Ok("False".to_owned())
        },
        Value::Number(Number::PosInt(n)) => Ok(dec_u64(*n)),
        Value::Number(Number::NegInt(n)) => Ok(dec_i64(*n)),
        Value::Number(Number::Float(t)) => Ok(t.clone()),
        Value::Null => Ok("None".to_owned()),
        Value::List(_) => {
            let j = v.to_json_text();
            Err(join2("expected a string expression, found ", j.as_str()))
        },
        Value::Dict(_) => {
            let j = v.to_json_text();
            Err(join2("expected a string expression, found ", j.as_str()))
        },
    }
}

/// An error among the first entries is the error of all.
proof fn lemma_expressions_err(o: VarsView, n: nat, m: nat)
    requires
        n <= m <= o.len(),
        expressions(o, n) is Err,
    ensures
        expressions(o, m) == expressions(o, n),
    decreases m - n,
{
    if n < m {
        lemma_expressions_err(o, n, (m - 1) as nat);
    }
}

/// What reading named expressions gave.
pub open spec fn exprs_result(r: Result<IndexMap<String, String>, String>) -> Result<Exprs, Seq<char>> {
    match r {
        Ok(m) => Ok(expr_entries(m)),
        Err(e) => Err(e@),
    }
}

/// Reads named expressions.
fn read_expr_map(v: &Value) -> (r: Result<IndexMap<String, String>, String>)
    ensures
        exprs_result(r) == expr_map(v@),
{
    let o = match v {
        Value::Dict(o) => o,
        _ => {
            return Err(kind_error(v, "a map"));
        },
    };
    let mut out = exprs_new();
    let mut i: usize = 0;
    proof {
        use_type_invariant(o);
    }
    while i < o.len()
        invariant
            i <= o@.len(),
            v@ == ValueView::Dict(o@),
            distinct(o@),
            expressions(o@, i as nat) == Ok::<Exprs, Seq<char>>(expr_entries(out)),
            expr_entries(out).len() == i,
            forall|j: int| 0 <= j < i ==> (#[trigger] expr_entries(out)[j]).0 == o@[j].0,
        decreases o@.len() - i,
    {
        match value_to_expr(o.value_at(i)) {
            Ok(s) => {
                let k = o.name_at(i).clone();
                proof {
                    lemma_pos_unique(expr_entries(out), k@, i as int);
                }
                exprs_insert(&mut out, k, s);
            },
            Err(e) => {
                proof {
                    lemma_expressions_err(o@, (i + 1) as nat, o@.len());
                }
                return Err(e);
            },
        }
        i += 1;
    }
    Ok(out)
}

/// Reads a boolean.
fn read_bool(v: &Value) -> (r: Result<bool, String>)
    ensures
        (match r {
            Ok(b) => Ok(b),
            Err(e) => Err(e@),
        }) == boolean(v@),
{
    match v {
        Value::Bool(b) => Ok(*b),
        _ => Err(kind_error(v, "a boolean")),
    }
}

/// Reads a text.
fn read_text(v: &Value) -> (r: Result<String, String>)
    ensures
        (match r {
            Ok(s) => Ok(s@),
            Err(e) => Err(e@),
        }) == text(v@),
{
    match v {
        Value::Text(s) => Ok(s.clone()),
        _ => Err(kind_error(v, "a string")),
    }
}

/// Reads an optional text.
fn read_opt_text(v: &Value) -> (r: Result<Option<String>, String>)
    ensures
        (match r {
            Ok(o) => Ok(opt_text(o)),
            Err(e) => Err(e@),
        }) == optional_text(v@),
{
    match v {
        Value::Null => Ok(None),
        Value::Text(s) => Ok(Some(s.clone())),
        _ => Err(kind_error(v, "a string")),
    }
}

/// Reads one field of a rule.
fn read_rule_field(g: KeyedGroup, keyed: bool, k: &str, v: &Value) -> (r: Result<
    (KeyedGroup, bool),
    String,
>)
    ensures
        (match r {
            Ok((g, b)) => Ok((g@, b)),
            Err(e) => Err(e@),
        }) == rule_field((g@, keyed), k@, v@),
{
    if same(k, "key") {
        match read_text(v) {
            Ok(s) => Ok((KeyedGroup { key: s, ..g }, true)),
            Err(e) => Err(e),
        }
    } else if same(k, "prefix") {
        match read_text(v) {
            Ok(s) => Ok((KeyedGroup { prefix: s, ..g }, keyed)),
            Err(e) => Err(e),
        }
    } else if same(k, "separator") {
        match read_text(v) {
            Ok(s) => Ok((KeyedGroup { separator: s, ..g }, keyed)),
            Err(e) => Err(e),
        }
    } else if same(k, "default_value") {
        match read_opt_text(v) {
            Ok(s) => Ok((KeyedGroup { default_value: s, ..g }, keyed)),
            Err(e) => Err(e),
        }
    } else if same(k, "parent_group") {
        match read_opt_text(v) {
            Ok(s) => Ok((KeyedGroup { parent_group: s, ..g }, keyed)),
            Err(e) => Err(e),
        }
    } else {
        Ok((g, keyed))
    }
}

/// A rule before its fields are read.
fn new_rule() -> (r: KeyedGroup)
    ensures
        r@ == blank_rule().0,
{
    let r = KeyedGroup {
        key: String::new(),
        prefix: String::new(),
        separator: "_".to_owned(),
        default_value: None,
        parent_group: None,
    };
    assert(r.key@ =~= Seq::<char>::empty());
    assert(r.prefix@ =~= Seq::<char>::empty());
    r
}

/// An error among the first fields is the error of all.
proof fn lemma_rule_fields_err(o: VarsView, n: nat, m: nat)
    requires
        n <= m <= o.len(),
        rule_fields(o, n) is Err,
    ensures
        rule_fields(o, m) == rule_fields(o, n),
    decreases m - n,
{
    if n < m {
        lemma_rule_fields_err(o, n, (m - 1) as nat);
    }
}

/// What reading the fields of a rule gave.
spec fn fields_result(r: Result<(KeyedGroup, bool), String>) -> Result<
    (KeyedView, bool),
    Seq<char>,
> {
    match r {
        Ok((g, b)) => Ok((g@, b)),
        Err(e) => Err(e@),
    }
}

/// Reads the fields of a rule from a map.
fn read_rule_map(o: &VarMap) -> (r: Result<(KeyedGroup, bool), String>)
    ensures
        fields_result(r) == rule_fields(o@, o@.len()),
{
    let mut g = new_rule();
    let mut keyed = false;
    let mut i: usize = 0;
    while i < o.len()
        invariant
            i <= o@.len(),
            rule_fields(o@, i as nat) == Ok::<(KeyedView, bool), Seq<char>>((g@, keyed)),
        decreases o@.len() - i,
    {
        match read_rule_field(g, keyed, o.name_at(i).as_str(), o.value_at(i)) {
            Ok((h, b)) => {
                g = h;
                keyed = b;
            },
            Err(e) => {
                proof {
                    lemma_rule_fields_err(o@, (i + 1) as nat, o@.len());
                }
                return Err(e);
            },
        }
        i += 1;
    }
    Ok((g, keyed))
}

/// The name of a rule's field by its position.
fn rule_field_at(i: usize) -> (r: &'static str)
    ensures
        r@ == rule_field_name(i as int),
{
    if i == 0 {
        "key"
    } else if i == 1 {
        "prefix"
    } else if i == 2 {
        "separator"
    } else if i == 3 {
        "default_value"
    } else {
        "parent_group"
    }
}

/// Reads the fields of a rule from a list.
fn read_rule_list(a: &Vec<Value>) -> (r: Result<(KeyedGroup, bool), String>)
    ensures
        ({
            let o = positional(values(a@), 5, |i: int| rule_field_name(i));
            fields_result(r) == rule_fields(o, o.len())
        }),
{
    let ghost o = positional(values(a@), 5, |i: int| rule_field_name(i));
    let n: usize = if a.len() < 5 {
        a.len()
    } else {
        5
    };
    let mut g = new_rule();
    let mut keyed = false;
    let mut i: usize = 0;
    while i < n
        invariant
            i <= n <= a@.len(),
            o == positional(values(a@), 5, |i: int| rule_field_name(i)),
            n == o.len(),
            rule_fields(o, i as nat) == Ok::<(KeyedView, bool), Seq<char>>((g@, keyed)),
        decreases n - i,
    {
        assert(o[i as int] == (rule_field_name(i as int), a@[i as int]@));
        match read_rule_field(g, keyed, rule_field_at(i), &a[i]) {
            Ok((h, b)) => {
                g = h;
                keyed = b;
            },
            Err(e) => {
                proof {
                    lemma_rule_fields_err(o, (i + 1) as nat, o.len());
                }
                return Err(e);
            },
        }
        i += 1;
    }
    Ok((g, keyed))
}

/// A list that is too long for its fields.
fn length_error(n: usize) -> (r: String)
    ensures
        r@ == too_long(n as nat),
{
    let d = dec_u64(n as u64);
    join3("invalid length ", d.as_str(), ", expected fewer elements in array")
}

/// What reading a rule gave.
spec fn rule_result(r: Result<KeyedGroup, String>) -> Result<KeyedView, Seq<char>> {
    match r {
        Ok(g) => Ok(g@),
        Err(e) => Err(e@),
    }
}

/// Reads a rule.
fn read_rule(v: &Value) -> (r: Result<KeyedGroup, String>)
    ensures
        rule_result(r) == keyed_rule(v@),
{
    match v {
        Value::Dict(o) => match read_rule_map(o) {
            Ok((g, keyed)) => if keyed {
                Ok(g)
            } else {
                Err("missing field `key`".to_owned())
            },
            Err(e) => Err(e),
        },
        Value::List(a) => {
            proof {
                lemma_list_view(*a);
            }
            match read_rule_list(a) {
                Ok((g, keyed)) => if !keyed {
                    Err(
                        "invalid length 0, expected struct KeyedGroup with 5 elements".to_owned(),
                    )
                } else if a.len() > 5 {
                    Err(length_error(a.len()))
                } else {
                    Ok(g)
                },
                Err(e) => Err(e),
            }
        },
        _ => Err(kind_error(v, "struct KeyedGroup")),
    }
}

/// An error among the first items is the error of all.
proof fn lemma_rules_err(a: Seq<ValueView>, n: nat, m: nat)
    requires
        n <= m <= a.len(),
        rules_of(a, n) is Err,
    ensures
        rules_of(a, m) == rules_of(a, n),
    decreases m - n,
{
    if n < m {
        lemma_rules_err(a, n, (m - 1) as nat);
    }
}

/// Reads rules.
fn read_rules(v: &Value) -> (r: Result<Vec<KeyedGroup>, String>)
    ensures
        (match r {
            Ok(l) => Ok(rules(l@)),
            Err(e) => Err(e@),
        }) == rule_list(v@),
{
    let a = match v {
        Value::List(a) => a,
        _ => {
            return Err(kind_error(v, "a sequence"));
        },
    };
    let ghost items = values(a@);
    proof {
        lemma_list_view(*a);
    }
    let mut out: Vec<KeyedGroup> = Vec::new();
    let mut i: usize = 0;
    assert(rules(out@) =~= Seq::empty());
    while i < a.len()
        invariant
            i <= a.len(),
            items == values(a@),
            v@ == ValueView::List(items),
            rules_of(items, i as nat) == Ok::<Seq<KeyedView>, Seq<char>>(rules(out@)),
        decreases a.len() - i,
    {
        assert(items[i as int] == a@[i as int]@);
        match read_rule(&a[i]) {
            Ok(g) => {
                let ghost before = rules(out@);
                out.push(g);
                assert(rules(out@) =~= before.push(g@));
            },
            Err(e) => {
                proof {
                    lemma_rules_err(items, (i + 1) as nat, items.len());
                }
                return Err(e);
            },
        }
        i += 1;
    }
    Ok(out)
}

/// What reading a configuration gave.
pub open spec fn config_result(r: Result<Config, String>) -> Result<ConfigView, Seq<char>> {
    match r {
        Ok(c) => Ok(c@),
        Err(e) => Err(e@),
    }
}

/// Reads one field of a configuration.
fn read_config_field(c: Config, k: &str, v: &Value) -> (r: Result<Config, String>)
    ensures
        config_result(r) == config_field(c@, k@, v@),
{
    if same(k, "compose") {
        match read_expr_map(v) {
            Ok(m) => Ok(Config { compose: m, ..c }),
            Err(e) => Err(e),
        }
    } else if same(k, "keyed_groups") {
        match read_rules(v) {
            Ok(l) => Ok(Config { keyed_groups: l, ..c }),
            Err(e) => Err(e),
        }
    } else if same(k, "groups") {
        match read_expr_map(v) {
            Ok(m) => Ok(Config { groups: m, ..c }),
            Err(e) => Err(e),
        }
    } else if same(k, "strict") {
        match read_bool(v) {
            Ok(b) => Ok(Config { strict: b, ..c }),
            Err(e) => Err(e),
        }
    } else if same(k, "leading_separator") {
        match read_bool(v) {
            Ok(b) => Ok(Config { leading_separator: b, ..c }),
            Err(e) => Err(e),
        }
    } else if same(k, "trailing_separator") {
        match read_bool(v) {
            Ok(b) => Ok(Config { trailing_separator: b, ..c }),
            Err(e) => Err(e),
        }
    } else {
        Ok(c)
    }
}

/// The configuration without any field.
fn new_config() -> (r: Config)
    ensures
        r@ == blank_config(),
{
    let r = Config {
        compose: exprs_new(),
        keyed_groups: Vec::new(),
        groups: exprs_new(),
        strict: false,
        leading_separator: true,
        trailing_separator: true,
    };
    assert(rules(r.keyed_groups@) =~= Seq::empty());
    r
}

/// An error among the first fields is the error of all.
proof fn lemma_config_fields_err(o: VarsView, n: nat, m: nat)
    requires
        n <= m <= o.len(),
        config_fields(o, n) is Err,
    ensures
        config_fields(o, m) == config_fields(o, n),
    decreases m - n,
{
    if n < m {
        lemma_config_fields_err(o, n, (m - 1) as nat);
    }
}

/// Reads a configuration from a map.
fn read_config_map(o: &VarMap) -> (r: Result<Config, String>)
    ensures
        config_result(r) == config_fields(o@, o@.len()),
{
    let mut c = new_config();
    let mut i: usize = 0;
    while i < o.len()
        invariant
            i <= o@.len(),
            config_fields(o@, i as nat) == Ok::<ConfigView, Seq<char>>(c@),
        decreases o@.len() - i,
    {
        match read_config_field(c, o.name_at(i).as_str(), o.value_at(i)) {
            Ok(d) => {
                c = d;
            },
            Err(e) => {
                proof {
                    lemma_config_fields_err(o@, (i + 1) as nat, o@.len());
                }
                return Err(e);
            },
        }
        i += 1;
    }
    Ok(c)
}

/// The name of a configuration's field by its position.
fn config_field_at(i: usize) -> (r: &'static str)
    ensures
        r@ == config_field_name(i as int),
{
    if i == 0 {
        "compose"
    } else if i == 1 {
        "keyed_groups"
    } else if i == 2 {
        "groups"
    } else if i == 3 {
        "strict"
    } else if i == 4 {
        "leading_separator"
    } else {
        "trailing_separator"
    }
}

/// Reads a configuration from a list.
fn read_config_list(a: &Vec<Value>) -> (r: Result<Config, String>)
    ensures
        ({
            let o = positional(values(a@), 6, |i: int| config_field_name(i));
            config_result(r) == config_fields(o, o.len())
        }),
{
    let ghost o = positional(values(a@), 6, |i: int| config_field_name(i));
    let n: usize = if a.len() < 6 {
        a.len()
    } else {
        6
    };
    let mut c = new_config();
    let mut i: usize = 0;
    while i < n
        invariant
            i <= n <= a@.len(),
            o == positional(values(a@), 6, |i: int| config_field_name(i)),
            n == o.len(),
            config_fields(o, i as nat) == Ok::<ConfigView, Seq<char>>(c@),
        decreases n - i,
    {
        assert(o[i as int] == (config_field_name(i as int), a@[i as int]@));
        match read_config_field(c, config_field_at(i), &a[i]) {
            Ok(d) => {
                c = d;
            },
            Err(e) => {
                proof {
                    lemma_config_fields_err(o, (i + 1) as nat, o.len());
                }
                return Err(e);
            },
        }
        i += 1;
    }
    Ok(c)
}

impl Config {
    /// Reads a configuration out of a document; else says what is wrong with it.
    pub fn from_value(v: &Value) -> (r: Result<Config, String>)
        ensures
            config_result(r) == config_of(v@),
    {
        match v {
            Value::Dict(o) => read_config_map(o),
            Value::List(a) => {
                proof {
                    lemma_list_view(*a);
                }
                match read_config_list(a) {
                    Ok(c) => if a.len() > 6 {
                        Err(length_error(a.len()))
                    } else {
                        Ok(c)
                    },
                    Err(e) => Err(e),
                }
            },
            _ => Err(kind_error(v, "struct Config")),
        }
    }
}

// ---------------------------------------------------------------------------------------
// Construction
// ---------------------------------------------------------------------------------------

/// Why a construction stopped.
#[derive(Debug)]
pub enum ApplyStop {
    /// The configuration or an expression is wrong.
    Error(Error),
    /// A question about floats has to be answered first.
    NeedFloat(FloatQuery),
    /// Integer arithmetic left 64 bits.
    Overflow,
}

/// What such a stop is.
pub enum Halt {
    Error(ErrorView),
    NeedFloat(FloatQueryView),
    Overflow,
}

impl View for ApplyStop {
    type V = Halt;

    open spec fn view(&self) -> Halt {
        match self {
            ApplyStop::Error(e) => Halt::Error(e@),
            ApplyStop::NeedFloat(q) => Halt::NeedFloat(q@),
            ApplyStop::Overflow => Halt::Overflow,
        }
    }
}

/// An error of a constructed inventory.
pub open spec fn construct_fault(path: Seq<char>, msg: Seq<char>) -> Halt {
    Halt::Error(ErrorView::Parse { path, msg })
}

/// A stop of an expression, with what the expression was for before the words of an error.
pub open spec fn halted(path: Seq<char>, what: Seq<char>, s: Stop) -> Halt {
    match s {
        Stop::Error(m) => construct_fault(path, what + m),
        Stop::NeedFloat(q) => Halt::NeedFloat(q),
        Stop::Overflow => Halt::Overflow,
    }
}

/// The variables that `compose` makes, all out of the same variables.
pub open spec fn compositions(
    es: Exprs,
    vars: VarsView,
    strict: bool,
    fl: Floats,
    path: Seq<char>,
) -> Result<VarsView, Halt>
    decreases es.len(),
{
    if es.len() == 0 {
        Ok(Seq::empty())
    } else {
        match compositions(es.drop_last(), vars, strict, fl, path) {
            Err(e) => Err(e),
            Ok(before) => match composed(es.last().1, vars, strict, fl) {
                Ok(Some(v)) => Ok(before.push((es.last().0, v))),
                Ok(None) => Ok(before),
                Err(e) => Err(
                    halted(path, "constructed compose["@ + es.last().0 + "]: "@, e),
                ),
            },
        }
    }
}

/// The inventory after a host joined the groups whose conditions are true, in order, and
/// the first stop.
pub open spec fn conditional_groups(
    i: InvView,
    h: Name,
    es: Exprs,
    vars: VarsView,
    fl: Floats,
    path: Seq<char>,
) -> (InvView, Option<Halt>)
    decreases es.len(),
{
    if es.len() == 0 {
        (i, None)
    } else {
        let (j, stop) = conditional_groups(i, h, es.drop_last(), vars, fl, path);
        let (name, cond) = es.last();
        match stop {
            Some(_) => (j, stop),
            None => match lenient(cond, evaluated(cond, vars, fl)) {
                Ok(Some(v)) => if is_true(v) {
                    (j.add_group(name).add_host_to_group(h, safe_name(name)), None)
                } else {
                    (j, None)
                },
                Ok(None) => (j, None),
                Err(e) => (j, Some(halted(path, "constructed groups["@ + name + "]: "@, e))),
            },
        }
    }
}

/// A scalar as part of a group's name.
pub open spec fn scalar_name(v: ValueView) -> Result<Name, Seq<char>> {
    match v {
        ValueView::Text(s) => Ok(s),
        ValueView::Int(i) => Ok(dec(i)),
        ValueView::Float(t) => Ok(t),
        ValueView::Bool(b) => Ok(
            if b {
                "True"@
            } else {
                "False"@
            },
        ),
        _ => Err("list elements must be scalars"@),
    }
}

/// The first `n` items of a list as parts of groups' names.
pub open spec fn item_names(a: Seq<ValueView>, n: nat) -> Result<Seq<Name>, Seq<char>>
    decreases n,
{
    if n == 0 || n > a.len() {
        Ok(Seq::empty())
    } else {
        match item_names(a, (n - 1) as nat) {
            Err(e) => Err(e),
            Ok(before) => match scalar_name(a[n - 1]) {
                Err(e) => Err(e),
                Ok(s) => Ok(before.push(s)),
            },
        }
    }
}

/// The parts that the value of a key gives to groups' names. A value that is not true gives
/// the default, or the empty part where a trailing separator is wanted.
pub open spec fn key_names(v: ValueView, g: KeyedView, trailing: bool) -> Result<
    Seq<Name>,
    Seq<char>,
> {
    if is_true(v) {
        match v {
            ValueView::List(a) => item_names(a, a.len()),
            ValueView::Dict(_) => Err("dict-valued keys are not supported"@),
            ValueView::Null => Ok(Seq::empty()),
            _ => match scalar_name(v) {
                Ok(s) => Ok(seq![s]),
                Err(e) => Err(e),
            },
        }
    } else {
        match g.default_value {
            Some(d) => Ok(seq![d]),
            None => if trailing {
                Ok(seq![Seq::empty()])
            } else {
                Ok(Seq::empty())
            },
        }
    }
}

/// The name of a keyed group. The separator is left out where there is no prefix and no
/// leading separator is wanted.
pub open spec fn keyed_name(prefix: Seq<char>, separator: Seq<char>, bare: Name, leading: bool) -> Name {
    safe_name(
        prefix + (if prefix.len() == 0 && !leading {
            Seq::empty()
        } else {
            separator
        }) + bare,
    )
}

/// The inventory after a host joined one keyed group.
pub open spec fn join_keyed(i: InvView, h: Name, g: KeyedView, bare: Name, leading: bool) -> InvView {
    let name = keyed_name(g.prefix, g.separator, bare, leading);
    let j = i.add_group(name).add_host_to_group(h, name);
    match g.parent_group {
        Some(p) => j.add_group(p).add_child(safe_name(p), name),
        None => j,
    }
}

/// The inventory after a host joined some keyed groups, in order.
pub open spec fn join_all_keyed(i: InvView, h: Name, g: KeyedView, bares: Seq<Name>, leading: bool) -> InvView
    decreases bares.len(),
{
    if bares.len() == 0 {
        i
    } else {
        join_keyed(
            join_all_keyed(i, h, g, bares.drop_last(), leading),
            h,
            g,
            bares.last(),
            leading,
        )
    }
}

/// The inventory after a host joined the groups of one rule, and the stop.
pub open spec fn keyed_groups(
    i: InvView,
    h: Name,
    g: KeyedView,
    c: ConfigView,
    vars: VarsView,
    fl: Floats,
    path: Seq<char>,
) -> (InvView, Option<Halt>) {
    match lenient(g.key, evaluated(g.key, vars, fl)) {
        Ok(None) => (i, None),
        Ok(Some(v)) => match key_names(v, g, c.trailing_separator) {
            Ok(bares) => (join_all_keyed(i, h, g, bares, c.leading_separator), None),
            Err(m) => (
                i,
                Some(
                    construct_fault(
                        path,
                        "constructed keyed_groups key "@ + debug_text(g.key) + ": "@ + m,
                    ),
                ),
            ),
        },
        Err(e) => (i, Some(halted(path, "constructed keyed_groups: "@, e))),
    }
}

/// The inventory after a host joined the groups of some rules, in order, and the first
/// stop.
pub open spec fn all_keyed_groups(
    i: InvView,
    h: Name,
    gs: Seq<KeyedView>,
    c: ConfigView,
    vars: VarsView,
    fl: Floats,
    path: Seq<char>,
) -> (InvView, Option<Halt>)
    decreases gs.len(),
{
    if gs.len() == 0 {
        (i, None)
    } else {
        let (j, stop) = all_keyed_groups(i, h, gs.drop_last(), c, vars, fl, path);
        match stop {
            Some(_) => (j, stop),
            None => keyed_groups(j, h, gs.last(), c, vars, fl, path),
        }
    }
}

/// The inventory with some variables of a host set, in order.
pub open spec fn assign(i: InvView, h: Name, vs: VarsView) -> InvView
    decreases vs.len(),
{
    if vs.len() == 0 {
        i
    } else {
        assign(i, h, vs.drop_last()).set_host_var(h, vs.last().0, vs.last().1)
    }
}

/// The inventory after the construction for one host, and the stop.
pub open spec fn construct_host(
    i: InvView,
    h: Name,
    c: ConfigView,
    fl: Floats,
    path: Seq<char>,
) -> (InvView, Option<Halt>) {
    match compositions(c.compose, resolved_inline(i, h), c.strict, fl, path) {
        Err(e) => (i, Some(e)),
        Ok(vs) => {
            let j = assign(i, h, vs);
            let vars = resolved_inline(j, h);
            let (k, stop) = conditional_groups(j, h, c.groups, vars, fl, path);
            match stop {
                Some(_) => (k, stop),
                None => all_keyed_groups(k, h, c.keyed_groups, c, vars, fl, path),
            }
        },
    }
}

/// The inventory after the construction for some hosts, in order, and the first stop.
pub open spec fn construct_hosts(
    i: InvView,
    hs: Seq<Name>,
    c: ConfigView,
    fl: Floats,
    path: Seq<char>,
) -> (InvView, Option<Halt>)
    decreases hs.len(),
{
    if hs.len() == 0 {
        (i, None)
    } else {
        let (j, stop) = construct_hosts(i, hs.drop_last(), c, fl, path);
        match stop {
            Some(_) => (j, stop),
            None => construct_host(j, hs.last(), c, fl, path),
        }
    }
}

/// What a construction makes of an inventory, and the stop.
pub open spec fn constructed(i: InvView, v: ValueView, fl: Floats, path: Seq<char>) -> (
    InvView,
    Option<Halt>,
) {
    match config_of(v) {
        Err(m) => (i, Some(construct_fault(path, "invalid constructed config: "@ + m))),
        Ok(c) => construct_hosts(i, i.host_order, c, fl, path),
    }
}

/// An error of a constructed inventory.
fn construct_error(path: &str, msg: String) -> (r: ApplyStop)
    ensures
        r@ == construct_fault(path@, msg@),
{
    ApplyStop::Error(Error::Parse { path: path.to_owned(), msg })
}

/// A stop of an expression.
fn halt(path: &str, what: String, s: EvalStop) -> (r: ApplyStop)
    ensures
        r@ == halted(path@, what@, s@),
{
    match s {
        EvalStop::Error(e) => {
            let mut msg = what;
            msg.append(e.0.as_str());
            construct_error(path, msg)
        },
        EvalStop::NeedFloat(q) => ApplyStop::NeedFloat(q),
        EvalStop::Overflow => ApplyStop::Overflow,
    }
}

/// A stop among the first expressions is the stop of all.
proof fn lemma_compositions_err(
    es: Exprs,
    vars: VarsView,
    strict: bool,
    fl: Floats,
    path: Seq<char>,
    n: int,
)
    requires
        0 <= n <= es.len(),
        compositions(es.take(n), vars, strict, fl, path) is Err,
    ensures
        compositions(es, vars, strict, fl, path) == compositions(
            es.take(n),
            vars,
            strict,
            fl,
            path,
        ),
    decreases es.len() - n,
{
    if n == es.len() {
        assert(es.take(n) =~= es);
    } else {
        assert(es.take(n + 1).drop_last() =~= es.take(n));
        lemma_compositions_err(es, vars, strict, fl, path, n + 1);
    }
}

/// Evaluates the `compose` expressions.
fn compose(es: &IndexMap<String, String>, vars: &VarMap, strict: bool, fl: &FloatTable, path: &str) -> (r: Result<
    Vec<(String, Value)>,
    ApplyStop,
>)
    ensures
        (match r {
            Ok(v) => Ok(var_list(v@)),
            Err(e) => Err(e@),
        }) == compositions(expr_entries(*es), vars@, strict, fl@, path@),
{
    let ghost e = expr_entries(*es);
    let mut out: Vec<(String, Value)> = Vec::new();
    let mut i: usize = 0;
    assert(var_list(out@) =~= Seq::empty());
    while i < exprs_len(es)
        invariant
            i <= e.len(),
            e == expr_entries(*es),
            compositions(e.take(i as int), vars@, strict, fl@, path@) == Ok::<VarsView, Halt>(
                var_list(out@),
            ),
        decreases e.len() - i,
    {
        let (name, src) = match exprs_at(es, i) {
            Some(x) => x,
            None => vstd::pervasive::unreached(),
        };
        proof {
            assert(e.take(i + 1).drop_last() =~= e.take(i as int));
            assert(e.take(i + 1).last() == e[i as int]);
        }
        match eval_compose(src.as_str(), vars, strict, fl) {
            Ok(Some(v)) => {
                let ghost before = var_list(out@);
                let k = name.clone();
                out.push((k, v));
                assert(var_list(out@) =~= before.push((k@, v@)));
            },
            Ok(None) => {},
            Err(s) => {
                proof {
                    lemma_compositions_err(e, vars@, strict, fl@, path@, i + 1);
                }
                let what = join3("constructed compose[", name.as_str(), "]: ");
                return Err(halt(path, what, s));
            },
        }
        i += 1;
    }
    assert(e.take(i as int) =~= e);
    Ok(out)
}

/// Sets variables of a host.
fn assign_vars(inv: &mut InventoryData, host: &str, vs: &Vec<(String, Value)>)
    requires
        old(inv)@.wf(),
        old(inv)@.hosts.dom().contains(host@),
    ensures
        final(inv)@ == assign(old(inv)@, host@, var_list(vs@)),
        final(inv)@.wf(),
        final(inv)@.hosts.dom() == old(inv)@.hosts.dom(),
{
    let ghost i0 = inv@;
    let ghost l = var_list(vs@);
    let mut i: usize = 0;
    while i < vs.len()
        invariant
            i <= vs.len(),
            l == var_list(vs@),
            inv@.wf(),
            inv@.hosts.dom() == i0.hosts.dom(),
            i0.hosts.dom().contains(host@),
            inv@ == assign(i0, host@, l.take(i as int)),
        decreases vs.len() - i,
    {
        let ghost here = inv@;
        proof {
            assert(l.take(i + 1).drop_last() =~= l.take(i as int));
            assert(l.take(i + 1).last() == l[i as int]);
        }
        inv.set_host_var(host, vs[i].0.as_str(), vs[i].1.clone());
        assert(inv@.hosts.dom() =~= here.hosts.dom());
        i += 1;
    }
    assert(l.take(i as int) =~= l);
}

/// Puts a host into a group that is made where there is none.
fn join_group(inv: &mut InventoryData, host: &str, group: &str) -> (r: String)
    requires
        old(inv)@.wf(),
        old(inv)@.hosts.dom().contains(host@),
    ensures
        r@ == safe_name(group@),
        final(inv)@ == old(inv)@.add_group(group@).add_host_to_group(host@, safe_name(group@)),
        final(inv)@.wf(),
        final(inv)@.hosts.dom() == old(inv)@.hosts.dom(),
        final(inv)@.groups.dom().contains(r@),
{
    let ghost before = inv@;
    let g = inv.add_group(group);
    let ghost here = inv@;
    inv.add_host_to_group(host, g.as_str());
    assert(inv@.hosts.dom() =~= before.hosts.dom());
    g
}

/// A stop among the first conditions is the stop of all.
proof fn lemma_conditional_stop(
    i: InvView,
    h: Name,
    es: Exprs,
    vars: VarsView,
    fl: Floats,
    path: Seq<char>,
    n: int,
)
    requires
        0 <= n <= es.len(),
        conditional_groups(i, h, es.take(n), vars, fl, path).1 is Some,
    ensures
        conditional_groups(i, h, es, vars, fl, path) == conditional_groups(
            i,
            h,
            es.take(n),
            vars,
            fl,
            path,
        ),
    decreases es.len() - n,
{
    if n == es.len() {
        assert(es.take(n) =~= es);
    } else {
        assert(es.take(n + 1).drop_last() =~= es.take(n));
        lemma_conditional_stop(i, h, es, vars, fl, path, n + 1);
    }
}

/// What a stop is, where there is one.
pub open spec fn opt_halt(o: Option<ApplyStop>) -> Option<Halt> {
    match o {
        Some(s) => Some(s@),
        None => None,
    }
}

/// Puts a host into the groups whose conditions are true.
fn join_conditional(
    inv: &mut InventoryData,
    host: &str,
    es: &IndexMap<String, String>,
    vars: &VarMap,
    fl: &FloatTable,
    path: &str,
) -> (r: Option<ApplyStop>)
    requires
        old(inv)@.wf(),
        old(inv)@.hosts.dom().contains(host@),
    ensures
        (final(inv)@, opt_halt(r)) == conditional_groups(
            old(inv)@,
            host@,
            expr_entries(*es),
            vars@,
            fl@,
            path@,
        ),
        final(inv)@.wf(),
        final(inv)@.hosts.dom() == old(inv)@.hosts.dom(),
{
    let ghost i0 = inv@;
    let ghost e = expr_entries(*es);
    let mut i: usize = 0;
    while i < exprs_len(es)
        invariant
            i <= e.len(),
            e == expr_entries(*es),
            i0 == old(inv)@,
            inv@.wf(),
            inv@.hosts.dom() == i0.hosts.dom(),
            i0.hosts.dom().contains(host@),
            conditional_groups(i0, host@, e.take(i as int), vars@, fl@, path@) == (inv@, None::<
                Halt,
            >),
        decreases e.len() - i,
    {
        let (name, cond) = match exprs_at(es, i) {
            Some(x) => x,
            None => vstd::pervasive::unreached(),
        };
        proof {
            assert(e.take(i + 1).drop_last() =~= e.take(i as int));
            assert(e.take(i + 1).last() == e[i as int]);
        }
        match eval_condition(cond.as_str(), vars, fl) {
            Ok(b) => if b {
                let _ = join_group(inv, host, name.as_str());
            },
            Err(s) => {
                proof {
                    lemma_conditional_stop(i0, host@, e, vars@, fl@, path@, i + 1);
                }
                let what = join3("constructed groups[", name.as_str(), "]: ");
                return Some(halt(path, what, s));
            },
        }
        i += 1;
    }
    assert(e.take(i as int) =~= e);
    None
}

/// A scalar as part of a group's name.
fn scalar_to_string(v: &Value) -> (r: Result<String, String>)
    ensures
        (match r {
            Ok(s) => Ok(s@),
            Err(e) => Err(e@),
        }) == scalar_name(v@),
{
    match v {
        Value::Text(s) => Ok(s.clone()),
        Value::Number(Number::PosInt(n)) => Ok(dec_u64(*n)),
        Value::Number(Number::NegInt(n)) => Ok(dec_i64(*n)),
        Value::Number(Number::Float(t)) => Ok(t.clone()),
        Value::Bool(b) => if *b {
            Ok("True".to_owned())
        } else {
            Ok("False".to_owned())
        },
        Value::Null => Err("list elements must be scalars".to_owned()),
        Value::List(_) => Err("list elements must be scalars".to_owned()),
        Value::Dict(_) => Err("list elements must be scalars".to_owned()),
    }
}

/// An error among the first items is the error of all.
proof fn lemma_item_names_err(a: Seq<ValueView>, n: nat, m: nat)
    requires
        n <= m <= a.len(),
        item_names(a, n) is Err,
    ensures
        item_names(a, m) == item_names(a, n),
    decreases m - n,
{
    if n < m {
        lemma_item_names_err(a, n, (m - 1) as nat);
    }
}

/// What naming gave.
spec fn names_result(r: Result<Vec<String>, String>) -> Result<Seq<Name>, Seq<char>> {
    match r {
        Ok(v) => Ok(names(v@)),
        Err(e) => Err(e@),
    }
}

/// The items of a list as parts of groups' names.
fn name_items(a: &Vec<Value>) -> (r: Result<Vec<String>, String>)
    ensures
        names_result(r) == item_names(values(a@), a@.len()),
{
    let ghost items = values(a@);
    let mut out: Vec<String> = Vec::new();
    let mut i: usize = 0;
    assert(names(out@) =~= Seq::empty());
    while i < a.len()
        invariant
            i <= a.len(),
            items == values(a@),
            item_names(items, i as nat) == Ok::<Seq<Name>, Seq<char>>(names(out@)),
        decreases a.len() - i,
    {
        assert(items[i as int] == a@[i as int]@);
        match scalar_to_string(&a[i]) {
            Ok(s) => {
                proof {
                    lemma_names_push(out@, s);
                }
                out.push(s);
            },
            Err(e) => {
                proof {
                    lemma_item_names_err(items, (i + 1) as nat, items.len());
                }
                return Err(e);
            },
        }
        i += 1;
    }
    Ok(out)
}

/// One name.
fn one_name(s: String) -> (r: Vec<String>)
    ensures
        names(r@) == seq![s@],
{
    let mut v: Vec<String> = Vec::new();
    v.push(s);
    assert(names(v@) =~= seq![s@]);
    v
}

/// No names.
fn no_names() -> (r: Vec<String>)
    ensures
        names(r@) == Seq::<Name>::empty(),
{
    let v: Vec<String> = Vec::new();
    assert(names(v@) =~= Seq::empty());
    v
}

/// The parts that the value of a key gives to groups' names.
pub fn bare_names(v: &Value, g: &KeyedGroup, trailing_separator: bool) -> (r: Result<
    Vec<String>,
    String,
>)
    ensures
        (match r {
            Ok(l) => Ok(names(l@)),
            Err(e) => Err(e@),
        }) == key_names(v@, g@, trailing_separator),
{
    if truthy(v) {
        match v {
            Value::List(a) => {
                proof {
                    lemma_list_view(*a);
                }
                name_items(a)
            },
            Value::Dict(_) => Err("dict-valued keys are not supported".to_owned()),
            Value::Null => Ok(no_names()),
            _ => match scalar_to_string(v) {
                Ok(s) => Ok(one_name(s)),
                Err(e) => Err(e),
            },
        }
    } else {
        match &g.default_value {
            Some(d) => Ok(one_name(d.clone())),
            None => if trailing_separator {
                let none = String::new();
                assert(none@ =~= Seq::<char>::empty());
                Ok(one_name(none))
            } else {
                Ok(no_names())
            },
        }
    }
}

/// The name of a keyed group.
pub fn group_name(prefix: &str, separator: &str, bare: &str, leading_separator: bool) -> (r: String)
    ensures
        r@ == keyed_name(prefix@, separator@, bare@, leading_separator),
{
    let mut raw = prefix.to_owned();
    if !(prefix.is_empty() && !leading_separator) {
        raw.append(separator);
    }
    raw.append(bare);
    proof {
        let sep = if prefix@.len() == 0 && !leading_separator {
            Seq::empty()
        } else {
            separator@
        };
        assert(raw@ =~= prefix@ + sep + bare@);
    }
    to_safe_group_name(raw.as_str())
}

/// Puts a host into one keyed group.
fn join_one(inv: &mut InventoryData, host: &str, g: &KeyedGroup, bare: &str, leading: bool)
    requires
        old(inv)@.wf(),
        old(inv)@.hosts.dom().contains(host@),
    ensures
        final(inv)@ == join_keyed(old(inv)@, host@, g@, bare@, leading),
        final(inv)@.wf(),
        final(inv)@.hosts.dom() == old(inv)@.hosts.dom(),
{
    let raw = group_name(g.prefix.as_str(), g.separator.as_str(), bare, leading);
    proof {
        lemma_safe_name_fixed(
            g.prefix@ + (if g.prefix@.len() == 0 && !leading {
                Seq::empty()
            } else {
                g.separator@
            }) + bare@,
        );
    }
    let name = join_group(inv, host, raw.as_str());
    match &g.parent_group {
        Some(p) => {
            let parent = inv.add_group(p.as_str());
            inv.add_child(parent.as_str(), name.as_str());
        },
        None => {},
    }
}

/// Puts a host into some keyed groups.
fn join_many(inv: &mut InventoryData, host: &str, g: &KeyedGroup, bares: &Vec<String>, leading: bool)
    requires
        old(inv)@.wf(),
        old(inv)@.hosts.dom().contains(host@),
    ensures
        final(inv)@ == join_all_keyed(old(inv)@, host@, g@, names(bares@), leading),
        final(inv)@.wf(),
        final(inv)@.hosts.dom() == old(inv)@.hosts.dom(),
{
    let ghost i0 = inv@;
    let ghost bs = names(bares@);
    let mut i: usize = 0;
    while i < bares.len()
        invariant
            i <= bares.len(),
            bs == names(bares@),
            inv@.wf(),
            inv@.hosts.dom() == i0.hosts.dom(),
            i0.hosts.dom().contains(host@),
            inv@ == join_all_keyed(i0, host@, g@, bs.take(i as int), leading),
        decreases bares.len() - i,
    {
        proof {
            assert(bs[i as int] == bares@[i as int]@);
            assert(bs.take(i + 1).drop_last() =~= bs.take(i as int));
            assert(bs.take(i + 1).last() == bs[i as int]);
        }
        join_one(inv, host, g, bares[i].as_str(), leading);
        i += 1;
    }
    assert(bs.take(i as int) =~= bs);
}

/// Puts a host into the groups of one rule.
fn join_rule(
    inv: &mut InventoryData,
    host: &str,
    g: &KeyedGroup,
    c: &Config,
    vars: &VarMap,
    fl: &FloatTable,
    path: &str,
) -> (r: Option<ApplyStop>)
    requires
        old(inv)@.wf(),
        old(inv)@.hosts.dom().contains(host@),
    ensures
        (final(inv)@, opt_halt(r)) == keyed_groups(
            old(inv)@,
            host@,
            g@,
            c@,
            vars@,
            fl@,
            path@,
        ),
        final(inv)@.wf(),
        final(inv)@.hosts.dom() == old(inv)@.hosts.dom(),
{
    match eval_key(g.key.as_str(), vars, fl) {
        Ok(None) => None,
        Ok(Some(v)) => match bare_names(&v, g, c.trailing_separator) {
            Ok(bares) => {
                join_many(inv, host, g, &bares, c.leading_separator);
                None
            },
            Err(m) => {
                let shown = debug_str(g.key.as_str());
                let mut msg = "constructed keyed_groups key ".to_owned();
                msg.append(shown.as_str());
                msg.append(": ");
                msg.append(m.as_str());
                Some(construct_error(path, msg))
            },
        },
        Err(s) => Some(halt(path, "constructed keyed_groups: ".to_owned(), s)),
    }
}

/// A stop among the first rules is the stop of all.
proof fn lemma_keyed_stop(
    i: InvView,
    h: Name,
    gs: Seq<KeyedView>,
    c: ConfigView,
    vars: VarsView,
    fl: Floats,
    path: Seq<char>,
    n: int,
)
    requires
        0 <= n <= gs.len(),
        all_keyed_groups(i, h, gs.take(n), c, vars, fl, path).1 is Some,
    ensures
        all_keyed_groups(i, h, gs, c, vars, fl, path) == all_keyed_groups(
            i,
            h,
            gs.take(n),
            c,
            vars,
            fl,
            path,
        ),
    decreases gs.len() - n,
{
    if n == gs.len() {
        assert(gs.take(n) =~= gs);
    } else {
        assert(gs.take(n + 1).drop_last() =~= gs.take(n));
        lemma_keyed_stop(i, h, gs, c, vars, fl, path, n + 1);
    }
}

/// Puts a host into the groups of all rules.
fn join_rules(
    inv: &mut InventoryData,
    host: &str,
    c: &Config,
    vars: &VarMap,
    fl: &FloatTable,
    path: &str,
) -> (r: Option<ApplyStop>)
    requires
        old(inv)@.wf(),
        old(inv)@.hosts.dom().contains(host@),
    ensures
        (final(inv)@, opt_halt(r)) == all_keyed_groups(
            old(inv)@,
            host@,
            rules(c.keyed_groups@),
            c@,
            vars@,
            fl@,
            path@,
        ),
        final(inv)@.wf(),
        final(inv)@.hosts.dom() == old(inv)@.hosts.dom(),
{
    let ghost i0 = inv@;
    let ghost gs = rules(c.keyed_groups@);
    let mut i: usize = 0;
    while i < c.keyed_groups.len()
        invariant
            i <= c.keyed_groups@.len(),
            gs == rules(c.keyed_groups@),
            i0 == old(inv)@,
            inv@.wf(),
            inv@.hosts.dom() == i0.hosts.dom(),
            i0.hosts.dom().contains(host@),
            all_keyed_groups(i0, host@, gs.take(i as int), c@, vars@, fl@, path@) == (inv@, None::<
                Halt,
            >),
        decreases c.keyed_groups.len() - i,
    {
        proof {
            assert(gs[i as int] == c.keyed_groups@[i as int]@);
            assert(gs.take(i + 1).drop_last() =~= gs.take(i as int));
            assert(gs.take(i + 1).last() == gs[i as int]);
        }
        match join_rule(inv, host, &c.keyed_groups[i], c, vars, fl, path) {
            Some(s) => {
                proof {
                    lemma_keyed_stop(i0, host@, gs, c@, vars@, fl@, path@, i + 1);
                }
                return Some(s);
            },
            None => {},
        }
        i += 1;
    }
    assert(gs.take(i as int) =~= gs);
    None
}

/// Constructs for one host.
fn construct_one(inv: &mut InventoryData, host: &str, c: &Config, fl: &FloatTable, path: &str) -> (r:
    Option<ApplyStop>)
    requires
        old(inv)@.wf(),
        old(inv)@.hosts.dom().contains(host@),
    ensures
        (final(inv)@, opt_halt(r)) == construct_host(old(inv)@, host@, c@, fl@, path@),
        final(inv)@.wf(),
        final(inv)@.hosts.dom() == old(inv)@.hosts.dom(),
{
    let snapshot = resolve_host_inline_vars(inv, host);
    let vs = match compose(&c.compose, &snapshot, c.strict, fl, path) {
        Ok(vs) => vs,
        Err(s) => {
            return Some(s);
        },
    };
    assign_vars(inv, host, &vs);
    let vars = resolve_host_inline_vars(inv, host);
    match join_conditional(inv, host, &c.groups, &vars, fl, path) {
        Some(s) => Some(s),
        None => join_rules(inv, host, c, &vars, fl, path),
    }
}

/// A stop among the first hosts is the stop of all.
proof fn lemma_hosts_stop(
    i: InvView,
    hs: Seq<Name>,
    c: ConfigView,
    fl: Floats,
    path: Seq<char>,
    n: int,
)
    requires
        0 <= n <= hs.len(),
        construct_hosts(i, hs.take(n), c, fl, path).1 is Some,
    ensures
        construct_hosts(i, hs, c, fl, path) == construct_hosts(i, hs.take(n), c, fl, path),
    decreases hs.len() - n,
{
    if n == hs.len() {
        assert(hs.take(n) =~= hs);
    } else {
        assert(hs.take(n + 1).drop_last() =~= hs.take(n));
        lemma_hosts_stop(i, hs, c, fl, path, n + 1);
    }
}

/// Constructs for all hosts.
fn construct_all(inv: &mut InventoryData, c: &Config, fl: &FloatTable, path: &str) -> (r: Option<
    ApplyStop,
>)
    requires
        old(inv)@.wf(),
    ensures
        (final(inv)@, opt_halt(r)) == construct_hosts(
            old(inv)@,
            old(inv)@.host_order,
            c@,
            fl@,
            path@,
        ),
        final(inv)@.wf(),
{
    let ghost i0 = inv@;
    let hosts = inv.host_names();
    let ghost hs = names(hosts@);
    let mut i: usize = 0;
    while i < hosts.len()
        invariant
            i <= hosts.len(),
            hs == names(hosts@),
            hs == i0.host_order,
            i0 == old(inv)@,
            i0.wf(),
            inv@.wf(),
            inv@.hosts.dom() == i0.hosts.dom(),
            construct_hosts(i0, hs.take(i as int), c@, fl@, path@) == (inv@, None::<Halt>),
        decreases hosts.len() - i,
    {
        proof {
            assert(hs[i as int] == hosts@[i as int]@);
            assert(hs.contains(hs[i as int]));
            assert(i0.hosts.dom().contains(hs[i as int]));
            assert(hs.take(i + 1).drop_last() =~= hs.take(i as int));
            assert(hs.take(i + 1).last() == hs[i as int]);
        }
        match construct_one(inv, hosts[i].as_str(), c, fl, path) {
            Some(s) => {
                proof {
                    lemma_hosts_stop(i0, hs, c@, fl@, path@, i + 1);
                }
                return Some(s);
            },
            None => {},
        }
        i += 1;
    }
    assert(hs.take(i as int) =~= hs);
    None
}

/// Runs a construction on the inventory built so far. Where a question about floats has to
/// be answered first, or arithmetic left 64 bits, the inventory stays as it was.
pub fn apply(inv: &mut InventoryData, value: &Value, fl: &FloatTable, path: &str) -> (r: Result<
    (),
    ApplyStop,
>)
    requires
        old(inv)@.wf(),
    ensures
        final(inv)@.wf(),
        ({
            let (i, stop) = constructed(old(inv)@, value@, fl@, path@);
            &&& stop == (match r {
                Ok(_) => None,
                Err(s) => Some(s@),
            })
            &&& final(inv)@ == (match stop {
                Some(Halt::NeedFloat(_)) => old(inv)@,
                Some(Halt::Overflow) => old(inv)@,
                _ => i,
            })
        }),
{
    let c = match Config::from_value(value) {
        Ok(c) => c,
        Err(m) => {
            return Err(
                construct_error(path, join2("invalid constructed config: ", m.as_str())),
            );
        },
    };
    let mut work = inv.copy();
    match construct_all(&mut work, &c, fl, path) {
        None => {
            *inv = work;
            Ok(())
        },
        Some(ApplyStop::Error(e)) => {
            *inv = work;
            Err(ApplyStop::Error(e))
        },
        Some(s) => Err(s),
    }
}

// ---------------------------------------------------------------------------------------
// Laws
// ---------------------------------------------------------------------------------------

proof fn lemma_compositions_last(
    es: Exprs,
    vars: VarsView,
    strict: bool,
    fl: Floats,
    path: Seq<char>,
    k: Name,
)
    requires
        distinct(es),
        compositions(es, vars, strict, fl, path) is Ok,
    ensures
        ({
            let vs = compositions(es, vars, strict, fl, path)->Ok_0;
            &&& distinct(vs)
            &&& holds(vs, k) ==> holds(es, k)
            &&& holds(es, k) ==> composed(get(es, k).unwrap(), vars, strict, fl) == Ok::<
                Option<ValueView>,
                Stop,
            >(get(vs, k))
        }),
    decreases es.len(),
{
    let vs = compositions(es, vars, strict, fl, path)->Ok_0;
    if es.len() > 0 {
        let u = es.drop_last();
        let n = es.len() - 1;
        assert(distinct(u)) by {
            assert forall|a: int, b: int| 0 <= a < b < u.len() implies (#[trigger] u[a]).0 != (
            #[trigger] u[b]).0 by {
                assert(es[a].0 != es[b].0);
            }
        }
        let before = compositions(u, vars, strict, fl, path)->Ok_0;
        lemma_compositions_last(u, vars, strict, fl, path, k);
        lemma_compositions_last(u, vars, strict, fl, path, es.last().0);
        lemma_pos(u, es.last().0);
        assert(!holds(u, es.last().0)) by {
            if holds(u, es.last().0) {
                let p = pos(u, es.last().0);
                assert(es[p].0 != es[n].0);
                assert(u[p] == es[p]);
            }
        }
        assert(es =~= put(u, es.last().0, es.last().1)) by {
            assert(es =~= u.push(es.last()));
        }
        lemma_put_get(u, es.last().0, es.last().1, k);
        if let Ok(Some(v)) = composed(es.last().1, vars, strict, fl) {
            assert(vs == put(before, es.last().0, v));
            lemma_put_get(before, es.last().0, v, k);
            lemma_put_distinct(before, es.last().0, v);
        }
    } else {
        lemma_pos(es, k);
    }
}

proof fn lemma_assigned(i: InvView, h: Name, vs: VarsView, k: Name)
    requires
        i.hosts.dom().contains(h),
        distinct(vs),
    ensures
        assign(i, h, vs).hosts.dom() == i.hosts.dom(),
        get(assign(i, h, vs).hosts[h].vars, k) == (if holds(vs, k) {
            get(vs, k)
        } else {
            get(i.hosts[h].vars, k)
        }),
    decreases vs.len(),
{
    lemma_pos(vs, k);
    if vs.len() > 0 {
        let u = vs.drop_last();
        let n = vs.len() - 1;
        assert(distinct(u)) by {
            assert forall|a: int, b: int| 0 <= a < b < u.len() implies (#[trigger] u[a]).0 != (
            #[trigger] u[b]).0 by {
                assert(vs[a].0 != vs[b].0);
            }
        }
        lemma_assigned(i, h, u, k);
        let j = assign(i, h, u);
        lemma_put_get(j.hosts[h].vars, vs.last().0, vs.last().1, k);
        assert(assign(i, h, vs).hosts.dom() =~= i.hosts.dom());
        lemma_pos(u, vs.last().0);
        assert(!holds(u, vs.last().0)) by {
            if holds(u, vs.last().0) {
                let p = pos(u, vs.last().0);
                assert(vs[p].0 != vs[n].0);
                assert(u[p] == vs[p]);
            }
        }
        assert(vs =~= put(u, vs.last().0, vs.last().1)) by {
            assert(vs =~= u.push(vs.last()));
        }
        lemma_put_get(u, vs.last().0, vs.last().1, k);
    }
}

/// Every `compose` expression sees the variables as they were before any of them was set:
/// the variable it names gets the expression's value over those, whatever the other
/// expressions are, or keeps the value it had where the expression has none. Variables that
/// no expression names keep their values.
pub proof fn law_compose_sees_a_snapshot(
    i: InvView,
    h: Name,
    es: Exprs,
    strict: bool,
    fl: Floats,
    path: Seq<char>,
    k: Name,
)
    requires
        i.hosts.dom().contains(h),
        distinct(es),
        compositions(es, resolved_inline(i, h), strict, fl, path) is Ok,
    ensures
        ({
            let vs = compositions(es, resolved_inline(i, h), strict, fl, path)->Ok_0;
            let now = get(assign(i, h, vs).hosts[h].vars, k);
            let before = get(i.hosts[h].vars, k);
            match get(es, k) {
                Some(src) => match composed(src, resolved_inline(i, h), strict, fl) {
                    Ok(Some(v)) => now == Some(v),
                    Ok(None) => now == before,
                    Err(_) => false,
                },
                None => now == before,
            }
        }),
{
    let vs = compositions(es, resolved_inline(i, h), strict, fl, path)->Ok_0;
    lemma_compositions_last(es, resolved_inline(i, h), strict, fl, path, k);
    lemma_assigned(i, h, vs, k);
}

proof fn lemma_evaluation_asks(src: Seq<char>, vars: VarsView, fl: Floats)
    ensures
        evaluated(src, vars, fl) matches Err(Fail::NeedFloat(q)) ==> answer(fl, q) is None,
{
    if let Ok(a) = parsed(src) {
        law_answers_change_nothing_decided(a, vars, fl, fl);
    }
}

/// A stop that waits for an answer waits for one that is not there.
spec fn asks_new(stop: Option<Halt>, fl: Floats) -> bool {
    stop matches Some(Halt::NeedFloat(q)) ==> answer(fl, q) is None
}

proof fn lemma_compositions_ask(
    es: Exprs,
    vars: VarsView,
    strict: bool,
    fl: Floats,
    path: Seq<char>,
)
    ensures
        compositions(es, vars, strict, fl, path) matches Err(e) ==> asks_new(Some(e), fl),
    decreases es.len(),
{
    if es.len() > 0 {
        lemma_compositions_ask(es.drop_last(), vars, strict, fl, path);
        lemma_evaluation_asks(es.last().1, vars, fl);
    }
}

proof fn lemma_conditions_ask(
    i: InvView,
    h: Name,
    es: Exprs,
    vars: VarsView,
    fl: Floats,
    path: Seq<char>,
)
    ensures
        asks_new(conditional_groups(i, h, es, vars, fl, path).1, fl),
    decreases es.len(),
{
    if es.len() > 0 {
        lemma_conditions_ask(i, h, es.drop_last(), vars, fl, path);
        lemma_evaluation_asks(es.last().1, vars, fl);
    }
}

proof fn lemma_keys_ask(
    i: InvView,
    h: Name,
    gs: Seq<KeyedView>,
    c: ConfigView,
    vars: VarsView,
    fl: Floats,
    path: Seq<char>,
)
    ensures
        asks_new(all_keyed_groups(i, h, gs, c, vars, fl, path).1, fl),
    decreases gs.len(),
{
    if gs.len() > 0 {
        lemma_keys_ask(i, h, gs.drop_last(), c, vars, fl, path);
        lemma_evaluation_asks(gs.last().key, vars, fl);
    }
}

proof fn lemma_hosts_ask(
    i: InvView,
    hs: Seq<Name>,
    c: ConfigView,
    fl: Floats,
    path: Seq<char>,
)
    ensures
        asks_new(construct_hosts(i, hs, c, fl, path).1, fl),
    decreases hs.len(),
{
    if hs.len() > 0 {
        lemma_hosts_ask(i, hs.drop_last(), c, fl, path);
        let j = construct_hosts(i, hs.drop_last(), c, fl, path).0;
        let h = hs.last();
        let before = resolved_inline(j, h);
        lemma_compositions_ask(c.compose, before, c.strict, fl, path);
        if let Ok(vs) = compositions(c.compose, before, c.strict, fl, path) {
            let k = assign(j, h, vs);
            let vars = resolved_inline(k, h);
            lemma_conditions_ask(k, h, c.groups, vars, fl, path);
            lemma_keys_ask(
                conditional_groups(k, h, c.groups, vars, fl, path).0,
                h,
                c.keyed_groups,
                c,
                vars,
                fl,
                path,
            );
        }
    }
}

/// A construction never asks what was already answered.
pub proof fn law_construction_asks_new_questions(
    i: InvView,
    v: ValueView,
    fl: Floats,
    path: Seq<char>,
)
    ensures
        constructed(i, v, fl, path).1 matches Some(Halt::NeedFloat(q)) ==> answer(fl, q) is None,
{
    if let Ok(c) = config_of(v) {
        lemma_hosts_ask(i, i.host_order, c, fl, path);
    }
}

proof fn lemma_container_entry(m: VarsView, n: nat, k: int)
    requires
        0 <= k < n <= m.len(),
        m[k].1 is List || m[k].1 is Dict,
    ensures
        expressions(m, n) is Err,
{
    assert(expression(m[k].1) is Err);
    assert(expressions(m, (k + 1) as nat) is Err);
    lemma_expressions_err(m, (k + 1) as nat, n);
}

/// A list or a map as an expression, in `groups` or in `compose`, makes a configuration that
/// cannot be read.
pub proof fn law_containers_are_no_expressions(o: VarsView, m: VarsView, k: int)
    requires
        get(o, "groups"@) == Some(ValueView::Dict(m)) || get(o, "compose"@) == Some(
            ValueView::Dict(m),
        ),
        0 <= k < m.len(),
        m[k].1 is List || m[k].1 is Dict,
    ensures
        config_of(ValueView::Dict(o)) is Err,
{
    reveal_strlit("compose");
    reveal_strlit("keyed_groups");
    reveal_strlit("groups");
    reveal_strlit("strict");
    reveal_strlit("leading_separator");
    reveal_strlit("trailing_separator");
    let name = if get(o, "groups"@) == Some(ValueView::Dict(m)) {
        "groups"@
    } else {
        "compose"@
    };
    assert("groups"@[0] == 'g' && "compose"@[0] == 'c' && "keyed_groups"@[0] == 'k');
    lemma_pos(o, name);
    let p = pos(o, name);
    lemma_container_entry(m, m.len(), k);
    assert(expr_map(o[p].1) is Err);
    assert(config_fields(o, (p + 1) as nat) is Err);
    lemma_config_fields_err(o, (p + 1) as nat, o.len());
}

} // verus!
